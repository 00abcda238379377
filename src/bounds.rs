use vstd::prelude::*;
use crate::geometry::{across, max, Axis, Edge, Rect, COORD_LIMIT};

verus! {

/// A range of low-corner positions whose every square of side `size` lies
/// within `rect`.
pub open spec fn fits(o: Edge, size: int, rect: Rect) -> bool {
    let (lo, hi) = rect.along_spec(o.axis);
    let (cross_lo, cross_hi) = rect.along_spec(across(o.axis));
    &&& cross_lo <= o.pos
    &&& o.pos + size <= cross_hi
    &&& lo <= o.start
    &&& o.start < o.end
    &&& o.end + size <= hi
}

/// A range of positions cut down to the part whose squares lie within `rect`
/// along the range, or nothing where the squares cross the bounds across it
/// or too little is left.
pub open spec fn clip_to_bounds(o: Edge, size: int, rect: Rect) -> Option<Edge> {
    let (lo, hi) = rect.along_spec(o.axis);
    let (cross_lo, cross_hi) = rect.along_spec(across(o.axis));
    let start = max(o.start, lo);
    let end: int = if o.end + size <= hi { o.end + size } else { hi as int } - size;
    if o.pos < cross_lo || o.pos + size > cross_hi || end <= start {
        None
    } else {
        Some(Edge { start, end: end as i64, ..o })
    }
}

/// Each range in turn cut down by `clip_to_bounds`, the empty ones left out.
pub open spec fn clip_all(s: Seq<Edge>, size: int, rect: Rect) -> Seq<Edge>
    decreases s.len(),
{
    if s.len() == 0 {
        Seq::empty()
    } else {
        let rest = clip_all(s.drop_last(), size, rect);
        match clip_to_bounds(s.last(), size, rect) {
            Some(e) => rest.push(e),
            None => rest,
        }
    }
}

/// Every range that `clip_all` keeps fits.
pub proof fn lemma_clip_all_fits(s: Seq<Edge>, size: int, rect: Rect)
    requires
        0 < size <= COORD_LIMIT,
        rect.wf(),
        forall|k: int| 0 <= k < s.len() ==> (#[trigger] s[k]).near(),
    ensures
        forall|k: int|
            0 <= k < clip_all(s, size, rect).len() ==> fits(#[trigger] clip_all(s, size, rect)[k], size, rect),
    decreases s.len(),
{
    if s.len() > 0 {
        let rest = s.drop_last();
        assert forall|k: int| 0 <= k < rest.len() implies (#[trigger] rest[k]).near() by {
            assert(rest[k] == s[k]);
        }
        lemma_clip_all_fits(rest, size, rect);
        let o = s.last();
        assert(o.near());
        match clip_to_bounds(o, size, rect) {
            Some(e) => {
                assert(fits(e, size, rect));
                let c = clip_all(s, size, rect);
                assert(c == clip_all(rest, size, rect).push(e));
                assert forall|k: int| 0 <= k < c.len() implies fits(#[trigger] c[k], size, rect) by {
                    if k < c.len() - 1 {
                        assert(c[k] == clip_all(rest, size, rect)[k]);
                    }
                }
            },
            None => {},
        }
    }
}

/// The candidate ranges cut down to the bounding rectangle: a range whose
/// squares would cross the rectangle across the range is dropped; along it,
/// the range is clipped, and dropped where nothing is left.
pub fn truncate_out_of_bounds(size: i64, positions: &Vec<Edge>, rect: &Rect) -> (r: Vec<Edge>)
    requires
        0 < size <= COORD_LIMIT,
        rect.wf(),
        forall|k: int| 0 <= k < positions.len() ==> (#[trigger] positions@[k]).near(),
    ensures
        r@ == clip_all(positions@, size as int, *rect),
        forall|k: int| 0 <= k < r.len() ==> fits(#[trigger] r@[k], size as int, *rect),
{
    let mut kept: Vec<Edge> = Vec::new();
    let mut i: usize = 0;
    while i < positions.len()
        invariant
            i <= positions.len(),
            0 < size <= COORD_LIMIT,
            rect.wf(),
            forall|k: int| 0 <= k < positions.len() ==> (#[trigger] positions@[k]).near(),
            kept@ == clip_all(positions@.subrange(0, i as int), size as int, *rect),
        decreases positions.len() - i,
    {
        let o = positions[i];
        assert(o.near());
        proof {
            let s = positions@.subrange(0, i + 1);
            assert(s.drop_last() == positions@.subrange(0, i as int));
            assert(s.last() == o);
        }
        let (lo, hi) = rect.along(o.axis);
        let (cross_lo, cross_hi) = match o.axis {
            Axis::X => rect.along(Axis::Y),
            Axis::Y => rect.along(Axis::X),
        };
        let (reach_start, reach_end, cross_start, cross_end) = o.get_square(size);
        if !(cross_start < cross_lo || cross_end > cross_hi) {
            let start = if reach_start >= lo { reach_start } else { lo };
            let end = if reach_end <= hi { reach_end } else { hi };
            if end - size > start {
                kept.push(Edge { start, end: end - size, ..o });
            }
        }
        i = i + 1;
    }
    proof {
        assert(positions@.subrange(0, positions.len() as int) == positions@);
        lemma_clip_all_fits(positions@, size as int, *rect);
    }
    kept
}

} // verus!
