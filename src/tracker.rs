use vstd::prelude::*;
use crate::geometry::{Edge, max, min};
use crate::intervals::{cell_free, clear_of, covers, free_runs, masks_within};

verus! {

/// Two edges face each other: opposite polarity, one line, and extents that
/// overlap in more than a point (so a degenerate edge faces nothing).
pub open spec fn faces(e1: Edge, e2: Edge) -> bool {
    &&& e1.side != e2.side
    &&& e2.start < e2.end
    &&& e1.pos == e2.pos
    &&& e1.end > e2.start
    &&& e2.end > e1.start
}

/// The part of `e1` that a facing `e2` consumes.
pub open spec fn mask_of(e1: Edge, e2: Edge) -> (i64, i64) {
    (max(e1.start, e2.start), min(e1.end, e2.end))
}

/// The masks that the first `n` edges lay on `e`, in order.
pub open spec fn masks_of(edges: Seq<Edge>, e: Edge, n: int) -> Seq<(i64, i64)>
    decreases n,
{
    if n <= 0 {
        Seq::empty()
    } else if faces(e, edges[n - 1]) {
        masks_of(edges, e, n - 1).push(mask_of(e, edges[n - 1]))
    } else {
        masks_of(edges, e, n - 1)
    }
}

/// The masks that all of `edges` lay on `e`.
pub open spec fn consumed(edges: Seq<Edge>, e: Edge) -> Seq<(i64, i64)> {
    masks_of(edges, e, edges.len() as int)
}

/// `o` is a part of `e`: same line, same polarity, within its extent, and of
/// positive length.
pub open spec fn piece_of(o: Edge, e: Edge) -> bool {
    &&& o.pos == e.pos
    &&& o.side == e.side
    &&& o.axis == e.axis
    &&& e.start <= o.start
    &&& o.start < o.end
    &&& o.end <= e.end
}

/// `o` is a whole surviving part of `e`: no facing edge consumes any of it,
/// and each of its ends is an end of `e` or meets a consumed cell.
pub open spec fn free_part_of(o: Edge, e: Edge, edges: Seq<Edge>) -> bool {
    &&& piece_of(o, e)
    &&& clear_of((o.start, o.end), consumed(edges, e))
    &&& o.start == e.start || !cell_free(consumed(edges, e), o.start - 1)
    &&& o.end == e.end || !cell_free(consumed(edges, e), o.end as int)
}

/// `o` is a whole surviving part of one of `edges`.
pub open spec fn survives(o: Edge, edges: Seq<Edge>) -> bool {
    exists|i: int| 0 <= i < edges.len() && free_part_of(o, #[trigger] edges[i], edges)
}

/// The unit cell at `t` along `e`'s line lies within `o`.
pub open spec fn covers_on(o: Edge, e: Edge, t: int) -> bool {
    &&& o.pos == e.pos
    &&& o.side == e.side
    &&& o.axis == e.axis
    &&& covers((o.start, o.end), t)
}

/// The free parts of a list of edges: each edge minus what facing edges of
/// opposite polarity on its line consume. Every piece that comes out is a
/// whole free part of an input edge, and every unit cell of an edge that
/// nothing consumes lies in a piece.
pub fn truncate_overlapping_edges(edges: &Vec<Edge>) -> (r: Vec<Edge>)
    requires
        forall|i: int| 0 <= i < edges.len() ==> (#[trigger] edges@[i]).wf(),
    ensures
        forall|k: int| 0 <= k < r.len() ==> survives(#[trigger] r@[k], edges@),
        forall|i: int, t: int|
            0 <= i < edges.len() && edges@[i].start <= t < edges@[i].end && #[trigger] cell_free(
                consumed(edges@, edges@[i]),
                t,
            ) ==> exists|k: int| 0 <= k < r.len() && covers_on(#[trigger] r@[k], edges@[i], t),
{
    let mut out: Vec<Edge> = Vec::new();
    let mut i: usize = 0;
    while i < edges.len()
        invariant
            i <= edges.len(),
            forall|q: int| 0 <= q < edges.len() ==> (#[trigger] edges@[q]).wf(),
            forall|k: int| 0 <= k < out.len() ==> survives(#[trigger] out@[k], edges@),
            forall|q: int, t: int|
                0 <= q < i && edges@[q].start <= t < edges@[q].end && #[trigger] cell_free(
                    consumed(edges@, edges@[q]),
                    t,
                ) ==> exists|k: int| 0 <= k < out.len() && covers_on(#[trigger] out@[k], edges@[q], t),
        decreases edges.len() - i,
    {
        let e1 = edges[i];
        if e1.start == e1.end {
            // a degenerate edge has no cell to keep
            i = i + 1;
            continue;
        }
        let mut masks: Vec<(i64, i64)> = Vec::new();
        let mut j: usize = 0;
        while j < edges.len()
            invariant
                j <= edges.len(),
                i < edges.len(),
                e1 == edges@[i as int],
                e1.wf(),
                e1.start < e1.end,
                forall|q: int| 0 <= q < edges.len() ==> (#[trigger] edges@[q]).wf(),
                masks@ == masks_of(edges@, e1, j as int),
                masks_within(e1.start as int, e1.end as int, masks@),
            decreases edges.len() - j,
        {
            let e2 = edges[j];
            if e1.side != e2.side && e2.start < e2.end && e1.pos == e2.pos && e1.end > e2.start && e2.end > e1.start {
                let lo = if e1.start >= e2.start { e1.start } else { e2.start };
                let hi = if e1.end <= e2.end { e1.end } else { e2.end };
                let ghost prev = masks@;
                assert(edges@[j as int].wf());
                masks.push((lo, hi));
                proof {
                    assert forall|q: int| 0 <= q < masks.len() implies e1.start <= (#[trigger] masks@[q]).0
                        && masks@[q].0 < masks@[q].1 && masks@[q].1 <= e1.end by {
                        if q < prev.len() {
                            assert(masks@[q] == prev[q]);
                        } else {
                            assert(masks@[q] == (lo, hi));
                            assert(e1.start <= lo);
                            assert(lo < hi);
                            assert(hi <= e1.end);
                        }
                    }
                }
            }
            j = j + 1;
        }
        let runs = free_runs(e1.start, e1.end, &masks);
        let ghost before = out@;
        let mut k: usize = 0;
        while k < runs.len()
            invariant
                k <= runs.len(),
                i < edges.len(),
                e1 == edges@[i as int],
                masks@ == consumed(edges@, e1),
                forall|m: int| 0 <= m < runs.len() ==> e1.start <= (#[trigger] runs@[m]).0 < runs@[m].1 <= e1.end,
                forall|m: int| 0 <= m < runs.len() ==> clear_of(#[trigger] runs@[m], masks@),
                forall|m: int|
                    0 <= m < runs.len() ==> ((#[trigger] runs@[m]).0 == e1.start || !cell_free(masks@, runs@[m].0 - 1))
                        && (runs@[m].1 == e1.end || !cell_free(masks@, runs@[m].1 as int)),
                out.len() == before.len() + k,
                forall|m: int| 0 <= m < before.len() ==> out@[m] == before[m],
                forall|m: int| 0 <= m < k ==> out@[before.len() + m] == (Edge {
                    start: runs@[m].0,
                    end: runs@[m].1,
                    ..e1
                }),
                forall|m: int| 0 <= m < out.len() ==> survives(#[trigger] out@[m], edges@),
            decreases runs.len() - k,
        {
            let piece = Edge { start: runs[k].0, end: runs[k].1, ..e1 };
            proof {
                assert(piece_of(piece, edges@[i as int]));
                assert(clear_of((piece.start, piece.end), consumed(edges@, edges@[i as int])));
                assert(free_part_of(piece, edges@[i as int], edges@));
                assert(survives(piece, edges@));
            }
            out.push(piece);
            k = k + 1;
        }
        proof {
            assert forall|q: int, t: int|
                0 <= q < i + 1 && edges@[q].start <= t < edges@[q].end && #[trigger] cell_free(
                    consumed(edges@, edges@[q]),
                    t,
                ) implies exists|k: int| 0 <= k < out.len() && covers_on(#[trigger] out@[k], edges@[q], t) by {
                if q < i {
                    let k0 = choose|k0: int| 0 <= k0 < before.len() && covers_on(#[trigger] before[k0], edges@[q], t);
                    assert(out@[k0] == before[k0]);
                } else {
                    let m = choose|m: int| 0 <= m < runs.len() && covers(#[trigger] runs@[m], t);
                    assert(out@[before.len() + m] == (Edge { start: runs@[m].0, end: runs@[m].1, ..e1 }));
                    assert(covers_on(out@[before.len() + m], edges@[q], t));
                }
            }
        }
        i = i + 1;
    }
    out
}

} // verus!
