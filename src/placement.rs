use vstd::prelude::*;
use crate::bounds::{clip_all, fits, truncate_out_of_bounds};
use crate::finder::placement_on;
use crate::geometry::{Axis, Edge, Rect, Square, COORD_LIMIT};
use crate::intervals::{cell_free, clear_of, covers, free_runs, masks_within};
use crate::tracker::{free_part_of, survives};

verus! {

/// The square of side `size` whose low corner lies at `x` along `o` and at
/// `o.pos` across it.
pub open spec fn square_at(o: Edge, x: int, size: int) -> (int, int) {
    match o.axis {
        Axis::X => (x, o.pos as int),
        Axis::Y => (o.pos as int, x),
    }
}

/// The square of side `size` at `x` along `o` overlaps `q`.
pub open spec fn hits(o: Edge, x: int, size: int, q: Square) -> bool {
    let (sx, sy) = square_at(o, x, size);
    &&& sx < q.x + q.side
    &&& q.x < sx + size
    &&& sy < q.y + q.side
    &&& q.y < sy + size
}

/// No square of side `size` at a position of `o` overlaps any of `squares`.
pub open spec fn clear_range(o: Edge, size: int, squares: Seq<Square>) -> bool {
    forall|x: int, k: int|
        o.start <= x <= o.end && 0 <= k < squares.len() ==> !#[trigger] hits(o, x, size, squares[k])
}

/// Squares at both ends of the unit cell `[t, t + 1]` along `o` are clear of
/// all of `squares`.
pub open spec fn cell_clear(o: Edge, t: int, size: int, squares: Seq<Square>) -> bool {
    forall|k: int|
        0 <= k < squares.len() ==> !#[trigger] hits(o, t, size, squares[k]) && !hits(
            o,
            t + 1,
            size,
            squares[k],
        )
}

/// `m` is what one of `squares` takes out of `o`.
pub open spec fn comes_from(o: Edge, size: int, squares: Seq<Square>, m: (i64, i64)) -> bool {
    exists|j: int| 0 <= j < squares.len() && blocked_by(o, size, #[trigger] squares[j]) == Some(m)
}

/// Every one of `masks` is what one of `squares` takes out of `o`.
pub open spec fn masks_from(o: Edge, size: int, squares: Seq<Square>, masks: Seq<(i64, i64)>) -> bool {
    forall|m: int| 0 <= m < masks.len() ==> comes_from(o, size, squares, #[trigger] masks[m])
}

/// `q`'s extent along `o`'s axis, then across it.
pub open spec fn extents(o: Edge, q: Square) -> (int, int, int, int) {
    match o.axis {
        Axis::X => (q.x as int, q.x + q.side, q.y as int, q.y + q.side),
        Axis::Y => (q.y as int, q.y + q.side, q.x as int, q.x + q.side),
    }
}

/// What `q` takes out of `o`'s range of positions, where it takes anything.
pub open spec fn blocked_by(o: Edge, size: int, q: Square) -> Option<(i64, i64)> {
    let (lo, hi, cross_lo, cross_hi) = extents(o, q);
    if cross_lo < o.pos + size && o.pos < cross_hi && lo - size < o.end && hi > o.start {
        Some(
            (
                if lo - size >= o.start { (lo - size) as i64 } else { o.start },
                if hi <= o.end { hi as i64 } else { o.end },
            ),
        )
    } else {
        None
    }
}

/// The parts of `o` at which a square of side `size` overlaps none of
/// `squares`: every position in each part is clear of all of them, and every
/// unit cell of `o` with clear ends lies within a part.
pub fn clip_against(o: Edge, size: i64, squares: &Vec<Square>) -> (r: Vec<Edge>)
    requires
        o.wf(),
        o.start < o.end,
        0 < size <= COORD_LIMIT,
        forall|k: int| 0 <= k < squares.len() ==> (#[trigger] squares@[k]).wf(),
    ensures
        forall|i: int|
            0 <= i < r.len() ==> {
                &&& (#[trigger] r@[i]).axis == o.axis
                &&& r@[i].side == o.side
                &&& r@[i].pos == o.pos
                &&& o.start <= r@[i].start < r@[i].end <= o.end
                &&& clear_range(r@[i], size as int, squares@)
            },
        forall|t: int|
            o.start <= t < o.end && #[trigger] cell_clear(o, t, size as int, squares@) ==> exists|i: int|
                0 <= i < r.len() && r@[i].start <= t && t + 1 <= #[trigger] r@[i].end,
{
    let mut masks: Vec<(i64, i64)> = Vec::new();
    let mut k: usize = 0;
    while k < squares.len()
        invariant
            k <= squares.len(),
            o.wf(),
            o.start < o.end,
            0 < size <= COORD_LIMIT,
            forall|j: int| 0 <= j < squares.len() ==> (#[trigger] squares@[j]).wf(),
            masks_within(o.start as int, o.end as int, masks@),
            forall|j: int|
                0 <= j < k ==> (#[trigger] blocked_by(o, size as int, squares@[j])) is Some ==> masks@.contains(
                    blocked_by(o, size as int, squares@[j])->0,
                ),
            masks_from(o, size as int, squares@, masks@),
        decreases squares.len() - k,
    {
        let q = squares[k];
        assert(q.wf());
        let (lo, hi, cross_lo, cross_hi) = match o.axis {
            Axis::X => (q.x, q.x + q.side, q.y, q.y + q.side),
            Axis::Y => (q.y, q.y + q.side, q.x, q.x + q.side),
        };
        let ghost prev = masks@;
        if cross_lo < o.pos + size && o.pos < cross_hi && lo - size < o.end && hi > o.start {
            let m_lo = if lo - size >= o.start { lo - size } else { o.start };
            let m_hi = if hi <= o.end { hi } else { o.end };
            masks.push((m_lo, m_hi));
            proof {
                assert(masks@[prev.len() as int] == (m_lo, m_hi));
                assert forall|j: int| 0 <= j < masks.len() implies o.start <= (#[trigger] masks@[j]).0
                    && masks@[j].0 < masks@[j].1 && masks@[j].1 <= o.end by {
                    if j < prev.len() {
                        assert(masks@[j] == prev[j]);
                    }
                }
                assert(blocked_by(o, size as int, squares@[k as int]) == Some((m_lo, m_hi)));
                assert forall|m: int| 0 <= m < masks.len() implies comes_from(
                    o,
                    size as int,
                    squares@,
                    #[trigger] masks@[m],
                ) by {
                    if m < prev.len() {
                        assert(masks@[m] == prev[m]);
                    } else {
                        assert(blocked_by(o, size as int, squares@[k as int]) == Some(masks@[m]));
                    }
                }
                assert forall|j: int|
                    0 <= j < k + 1 && (#[trigger] blocked_by(o, size as int, squares@[j])) is Some implies masks@.contains(
                    blocked_by(o, size as int, squares@[j])->0,
                ) by {
                    if j < k {
                        let idx = choose|idx: int| 0 <= idx < prev.len() && prev[idx] == blocked_by(o, size as int, squares@[j])->0;
                        assert(masks@[idx] == prev[idx]);
                    }
                }
            }
        }
        k = k + 1;
    }
    let runs = free_runs(o.start, o.end, &masks);
    let mut out: Vec<Edge> = Vec::new();
    let mut i: usize = 0;
    while i < runs.len()
        invariant
            i <= runs.len(),
            o.wf(),
            0 < size <= COORD_LIMIT,
            forall|j: int| 0 <= j < squares.len() ==> (#[trigger] squares@[j]).wf(),
            forall|m: int| 0 <= m < runs.len() ==> o.start <= (#[trigger] runs@[m]).0 < runs@[m].1 <= o.end,
            forall|m: int| 0 <= m < runs.len() ==> clear_of(#[trigger] runs@[m], masks@),
            forall|j: int|
                0 <= j < squares.len() ==> (#[trigger] blocked_by(o, size as int, squares@[j])) is Some ==> masks@.contains(
                    blocked_by(o, size as int, squares@[j])->0,
                ),
            out.len() == i,
            masks_from(o, size as int, squares@, masks@),
            forall|m: int| 0 <= m < i ==> (#[trigger] out@[m]).start == runs@[m].0 && out@[m].end == runs@[m].1,
            forall|t: int|
                o.start <= t < o.end && cell_free(masks@, t) ==> exists|m: int|
                    0 <= m < runs.len() && covers(#[trigger] runs@[m], t),
            forall|m: int|
                0 <= m < out.len() ==> {
                    &&& (#[trigger] out@[m]).axis == o.axis
                    &&& out@[m].side == o.side
                    &&& out@[m].pos == o.pos
                    &&& o.start <= out@[m].start < out@[m].end <= o.end
                    &&& clear_range(out@[m], size as int, squares@)
                },
        decreases runs.len() - i,
    {
        let piece = Edge { start: runs[i].0, end: runs[i].1, ..o };
        proof {
            let run = runs@[i as int];
            assert(clear_of(run, masks@));
            assert forall|x: int, j: int|
                piece.start <= x <= piece.end && 0 <= j < squares.len() implies !#[trigger] hits(
                piece,
                x,
                size as int,
                squares@[j],
            ) by {
                let q = squares@[j];
                assert(q.wf());
                let b = blocked_by(o, size as int, q);
                if b is Some {
                    let idx = choose|idx: int| 0 <= idx < masks.len() && masks@[idx] == b->0;
                    assert(run.1 <= masks@[idx].0 || masks@[idx].1 <= run.0);
                }
            }
        }
        out.push(piece);
        i = i + 1;
    }
    proof {
        assert forall|t: int|
            o.start <= t < o.end && #[trigger] cell_clear(o, t, size as int, squares@) implies exists|m: int|
                0 <= m < out.len() && out@[m].start <= t && t + 1 <= #[trigger] out@[m].end by {
            assert forall|m: int| 0 <= m < masks.len() implies !covers(#[trigger] masks@[m], t) by {
                assert(comes_from(o, size as int, squares@, masks@[m]));
                let j = choose|j: int|
                    0 <= j < squares.len() && blocked_by(o, size as int, #[trigger] squares@[j]) == Some(masks@[m]);
                let q = squares@[j];
                assert(q.wf());
                assert(cell_clear(o, t, size as int, squares@));
                assert(0 <= j < squares.len());
                assert(!hits(o, t, size as int, squares@[j]));
                assert(!hits(o, t + 1, size as int, squares@[j]));
            }
            assert(cell_free(masks@, t));
            let m = choose|m: int| 0 <= m < runs.len() && covers(#[trigger] runs@[m], t);
            assert(out@[m].start == runs@[m].0);
        }
    }
    out
}

/// Some range of `r` on `o`'s line keeps the unit cell at `t` along it.
pub open spec fn kept_on(r: Seq<Edge>, o: Edge, t: int) -> bool {
    exists|i: int|
        0 <= i < r.len() && (#[trigger] r[i]).axis == o.axis && r[i].side == o.side && r[i].pos == o.pos
            && r[i].start <= t && t + 1 <= r[i].end
}

/// The positions at which a square of side `size` can be placed, out of
/// `candidates`: each range is cut down to `bounds` and then clipped against
/// the squares already placed. Every position of every range gives a square
/// inside `bounds` that overlaps none of `squares`, and every unit cell of a
/// range cut down to `bounds` whose ends are clear of `squares` is kept.
pub fn legal_positions(size: i64, bounds: &Rect, squares: &Vec<Square>, candidates: &Vec<Edge>) -> (r:
    Vec<Edge>)
    requires
        0 < size <= COORD_LIMIT,
        bounds.wf(),
        forall|k: int| 0 <= k < squares.len() ==> (#[trigger] squares@[k]).wf(),
        forall|k: int| 0 <= k < candidates.len() ==> (#[trigger] candidates@[k]).near(),
    ensures
        forall|k: int|
            0 <= k < r.len() ==> fits(#[trigger] r@[k], size as int, *bounds) && clear_range(
                r@[k],
                size as int,
                squares@,
            ),
        forall|k: int, t: int|
            0 <= k < clip_all(candidates@, size as int, *bounds).len() && clip_all(
                candidates@,
                size as int,
                *bounds,
            )[k].start <= t < clip_all(candidates@, size as int, *bounds)[k].end && #[trigger] cell_clear(
                clip_all(candidates@, size as int, *bounds)[k],
                t,
                size as int,
                squares@,
            ) ==> kept_on(r@, clip_all(candidates@, size as int, *bounds)[k], t),
{
    let inside = truncate_out_of_bounds(size, candidates, bounds);
    let mut legal: Vec<Edge> = Vec::new();
    let mut i: usize = 0;
    while i < inside.len()
        invariant
            i <= inside.len(),
            0 < size <= COORD_LIMIT,
            bounds.wf(),
            forall|k: int| 0 <= k < squares.len() ==> (#[trigger] squares@[k]).wf(),
            forall|k: int| 0 <= k < inside.len() ==> fits(#[trigger] inside@[k], size as int, *bounds),
            forall|k: int|
                0 <= k < legal.len() ==> fits(#[trigger] legal@[k], size as int, *bounds)
                    && clear_range(legal@[k], size as int, squares@),
            forall|k: int, t: int|
                0 <= k < i && inside@[k].start <= t < inside@[k].end && #[trigger] cell_clear(
                    inside@[k],
                    t,
                    size as int,
                    squares@,
                ) ==> kept_on(legal@, inside@[k], t),
        decreases inside.len() - i,
    {
        let o = inside[i];
        assert(fits(o, size as int, *bounds));
        let parts = clip_against(o, size, squares);
        let ghost before = legal@;
        let mut j: usize = 0;
        while j < parts.len()
            invariant
                j <= parts.len(),
                i < inside.len(),
                o == inside@[i as int],
                fits(o, size as int, *bounds),
                forall|m: int|
                    0 <= m < parts.len() ==> {
                        &&& (#[trigger] parts@[m]).axis == o.axis
                        &&& parts@[m].side == o.side
                        &&& parts@[m].pos == o.pos
                        &&& o.start <= parts@[m].start < parts@[m].end <= o.end
                        &&& clear_range(parts@[m], size as int, squares@)
                    },
                forall|k: int|
                    0 <= k < legal.len() ==> fits(#[trigger] legal@[k], size as int, *bounds)
                        && clear_range(legal@[k], size as int, squares@),
                legal.len() == before.len() + j,
                forall|m: int| 0 <= m < before.len() ==> legal@[m] == before[m],
                forall|m: int| 0 <= m < j ==> legal@[before.len() + m] == parts@[m],
            decreases parts.len() - j,
        {
            let part = parts[j];
            assert(fits(part, size as int, *bounds));
            legal.push(part);
            j = j + 1;
        }
        proof {
            assert forall|k: int, t: int|
                0 <= k < i + 1 && inside@[k].start <= t < inside@[k].end && #[trigger] cell_clear(
                    inside@[k],
                    t,
                    size as int,
                    squares@,
                ) implies kept_on(legal@, inside@[k], t) by {
                if k < i {
                    assert(kept_on(before, inside@[k], t));
                    let a = choose|a: int|
                        0 <= a < before.len() && (#[trigger] before[a]).axis == inside@[k].axis
                            && before[a].side == inside@[k].side && before[a].pos == inside@[k].pos
                            && before[a].start <= t && t + 1 <= before[a].end;
                    assert(legal@[a] == before[a]);
                } else {
                    let m = choose|m: int| 0 <= m < parts.len() && parts@[m].start <= t && t + 1 <= #[trigger] parts@[m].end;
                    assert(legal@[before.len() + m] == parts@[m]);
                }
            }
        }
        i = i + 1;
    }
    legal
}

pub(crate) proof fn lemma_survivors_wf(free: Seq<Edge>, edges: Seq<Edge>)
    requires
        forall|k: int| 0 <= k < edges.len() ==> (#[trigger] edges[k]).wf(),
        forall|k: int| 0 <= k < free.len() ==> survives(#[trigger] free[k], edges),
    ensures
        forall|k: int| 0 <= k < free.len() ==> (#[trigger] free[k]).wf(),
{
    assert forall|k: int| 0 <= k < free.len() implies (#[trigger] free[k]).wf() by {
        assert(survives(free[k], edges));
        let i = choose|i: int| 0 <= i < edges.len() && free_part_of(free[k], #[trigger] edges[i], edges);
        assert(edges[i].wf());
    }
}

pub(crate) proof fn lemma_placements_near(found: Seq<Edge>, parallel: Seq<Edge>, perp: Seq<Edge>, size: int)
    requires
        0 < size <= COORD_LIMIT,
        forall|k: int| 0 <= k < parallel.len() ==> (#[trigger] parallel[k]).wf(),
        forall|k: int| 0 <= k < found.len() ==> crate::finder::placed_along(#[trigger] found[k], parallel, perp, size),
    ensures
        forall|k: int| 0 <= k < found.len() ==> (#[trigger] found[k]).near(),
{
    assert forall|k: int| 0 <= k < found.len() implies (#[trigger] found[k]).near() by {
        assert(crate::finder::placed_along(found[k], parallel, perp, size));
        let j = choose|j: int| 0 <= j < parallel.len() && placement_on(found[k], #[trigger] parallel[j], size)
            && crate::finder::unobstructed(found[k], parallel[j], perp, size);
        assert(parallel[j].wf());
    }
}

} // verus!
