use vstd::prelude::*;
use rand::rngs::StdRng;
use crate::bounds::fits;
use crate::capacity::{disjoint, grid_cells, lemma_packing_bound};
use crate::geometry::{Axis, Edge, Rect, Side, Square, COORD_LIMIT};
use crate::finder::get_square_positions;
use crate::placement::{
    clear_range, hits, lemma_placements_near, lemma_survivors_wf, legal_positions, square_at,
};
use crate::tracker::truncate_overlapping_edges;
use crate::random::{draw_between, draw_weighted, seeded, total};

verus! {

/// What a packing run is given: the rectangle to fill, the range of side
/// lengths with the step between them, and how far (in units) a parallel
/// free edge may fall short of a candidate's footprint and still count as
/// running along all of it.
#[derive(Clone, Copy, Debug, PartialEq, Eq, Structural)]
pub struct LayoutConfig {
    pub bounds: Rect,
    pub min_side: i64,
    pub max_side: i64,
    pub step: i64,
    pub cover_slack: i64,
}

impl LayoutConfig {
    pub open spec fn wf(&self) -> bool {
        &&& self.bounds.wf()
        &&& 0 < self.min_side <= self.max_side <= COORD_LIMIT
        &&& 0 < self.step <= COORD_LIMIT
        &&& 0 <= self.cover_slack <= COORD_LIMIT
    }

    /// A side length that the configuration allows.
    pub open spec fn allows(&self, side: int) -> bool {
        &&& self.min_side <= side <= self.max_side
        &&& (side - self.min_side) % (self.step as int) == 0
    }
}

/// The squares of a finished run in the order they were placed, and the size
/// ceiling that the run started with followed by each value it was lowered to.
pub struct Layout {
    pub squares: Vec<Square>,
    pub ceilings: Vec<i64>,
}

/// Squares that form a valid packing of `config`: each inside the
/// rectangle with an allowed side, and no two overlapping.
pub open spec fn valid_packing(squares: Seq<Square>, config: LayoutConfig) -> bool {
    &&& forall|k: int|
        0 <= k < squares.len() ==> (#[trigger] squares[k]).inside(config.bounds) && config.allows(
            squares[k].side as int,
        )
    &&& disjoint(squares)
}

/// A side length drawn uniformly from `min_side`, `min_side + step`, ... up to
/// `ceiling`.
pub fn sample_side(rng: &mut StdRng, min_side: i64, ceiling: i64, step: i64) -> (r: i64)
    requires
        0 < min_side <= ceiling <= COORD_LIMIT,
        0 < step,
    ensures
        min_side <= r <= ceiling,
        (r - min_side) % (step as int) == 0,
{
    let steps = (ceiling - min_side) / step;
    let k = draw_between(rng, 0, steps);
    proof {
        assert(k * step <= ceiling - min_side) by (nonlinear_arith)
            requires
                0 <= k <= steps,
                steps as int == (ceiling - min_side) as int / step as int,
                0 < step,
                0 <= ceiling - min_side,
        ;
        assert((k * step) % (step as int) == 0) by (nonlinear_arith)
            requires
                0 < step,
                k >= 0,
        ;
        assert(k * step >= 0) by (nonlinear_arith)
            requires
                0 < step,
                k >= 0,
        ;
    }
    min_side + k * step
}

/// The square of side `size` placed at `offset` along the range `o`.
pub fn square_on(o: &Edge, offset: i64, size: i64) -> (r: Square)
    ensures
        (r.x as int, r.y as int) == square_at(*o, offset as int, size as int),
        r.side == size,
{
    match o.axis {
        Axis::X => Square { x: offset, y: o.pos, side: size },
        Axis::Y => Square { x: o.pos, y: offset, side: size },
    }
}

/// The lengths of the ranges, in order, as weights for drawing one: as many
/// of them as can be added up without passing `u64::MAX`.
pub fn position_weights(candidates: &Vec<Edge>) -> (r: Vec<u64>)
    requires
        forall|k: int|
            0 <= k < candidates.len() ==> (#[trigger] candidates@[k]).wf() && candidates@[k].start
                < candidates@[k].end,
    ensures
        r.len() <= candidates.len(),
        candidates.len() > 0 ==> r.len() > 0,
        forall|k: int| 0 <= k < r.len() ==> #[trigger] r@[k] == candidates@[k].end - candidates@[k].start,
        total(r@) <= u64::MAX,
        r.len() < candidates.len() ==> total(r@) + (candidates@[r.len() as int].end
            - candidates@[r.len() as int].start) > u64::MAX,
{
    let mut weights: Vec<u64> = Vec::new();
    let mut sum: u64 = 0;
    let mut full = false;
    while weights.len() < candidates.len() && !full
        invariant
            weights.len() <= candidates.len(),
            forall|k: int|
                0 <= k < candidates.len() ==> (#[trigger] candidates@[k]).wf() && candidates@[k].start
                    < candidates@[k].end,
            forall|k: int|
                0 <= k < weights.len() ==> #[trigger] weights@[k] == candidates@[k].end
                    - candidates@[k].start,
            sum == total(weights@),
            !full || weights.len() > 0,
            full ==> weights.len() < candidates.len() && total(weights@) + (candidates@[weights.len() as int].end
                - candidates@[weights.len() as int].start) > u64::MAX,
        decreases candidates.len() - weights.len() + (if full { 0int } else { 1int }),
    {
        let o = candidates[weights.len()];
        assert(o.wf());
        let w = (o.end - o.start) as u64;
        if w <= u64::MAX - sum {
            proof {
                assert(weights@.push(w).drop_last() == weights@);
            }
            weights.push(w);
            sum = sum + w;
        } else {
            full = true;
        }
    }
    weights
}

/// A range drawn with probability proportional to its length (among those
/// that `position_weights` keeps), and a position drawn uniformly within it.
pub fn choose_position(rng: &mut StdRng, candidates: &Vec<Edge>) -> (r: (usize, i64))
    requires
        candidates.len() > 0,
        forall|k: int|
            0 <= k < candidates.len() ==> (#[trigger] candidates@[k]).wf() && candidates@[k].start
                < candidates@[k].end,
    ensures
        r.0 < candidates.len(),
        candidates@[r.0 as int].start <= r.1 <= candidates@[r.0 as int].end,
{
    let weights = position_weights(candidates);
    assert forall|k: int| 0 <= k < weights.len() implies (#[trigger] weights@[k]) > 0 by {
        assert(candidates@[k].start < candidates@[k].end);
    }
    let index = draw_weighted(rng, &weights);
    let o = &candidates[index];
    let offset = draw_between(rng, o.start, o.end);
    (index, offset)
}

/// The candidate ranges for squares of side `size`: the free parts of both
/// edge lists, then the positions found with the horizontal edges as the
/// parallel ones, followed by those found with the vertical ones.
fn candidate_positions(size: i64, slack: i64, horizontal: &Vec<Edge>, vertical: &Vec<Edge>) -> (r: Vec<
    Edge,
>)
    requires
        0 < size <= COORD_LIMIT,
        0 <= slack <= COORD_LIMIT,
        forall|k: int| 0 <= k < horizontal.len() ==> (#[trigger] horizontal@[k]).wf(),
        forall|k: int| 0 <= k < vertical.len() ==> (#[trigger] vertical@[k]).wf(),
    ensures
        forall|k: int| 0 <= k < r.len() ==> (#[trigger] r@[k]).near(),
{
    let free_horizontal = truncate_overlapping_edges(horizontal);
    let free_vertical = truncate_overlapping_edges(vertical);
    proof {
        lemma_survivors_wf(free_horizontal@, horizontal@);
        lemma_survivors_wf(free_vertical@, vertical@);
    }
    let mut candidates = get_square_positions(size, &free_horizontal, &free_vertical, slack);
    let mut more = get_square_positions(size, &free_vertical, &free_horizontal, slack);
    proof {
        lemma_placements_near(candidates@, free_horizontal@, free_vertical@, size as int);
        lemma_placements_near(more@, free_vertical@, free_horizontal@, size as int);
    }
    candidates.append(&mut more);
    candidates
}

/// Appends the four sides of `sq`: its top and bottom to `horizontal`, its
/// right and left sides to `vertical`, each opening away from the square.
fn push_square_edges(sq: Square, horizontal: &mut Vec<Edge>, vertical: &mut Vec<Edge>)
    requires
        sq.wf(),
        forall|k: int| 0 <= k < old(horizontal).len() ==> (#[trigger] old(horizontal)@[k]).wf(),
        forall|k: int| 0 <= k < old(vertical).len() ==> (#[trigger] old(vertical)@[k]).wf(),
    ensures
        forall|k: int| 0 <= k < final(horizontal).len() ==> (#[trigger] final(horizontal)@[k]).wf(),
        forall|k: int| 0 <= k < final(vertical).len() ==> (#[trigger] final(vertical)@[k]).wf(),
        final(horizontal)@ == old(horizontal)@ + seq![
            Edge { start: sq.x, end: (sq.x + sq.side) as i64, pos: (sq.y + sq.side) as i64, side: Side::Positive, axis: Axis::X },
            Edge { start: sq.x, end: (sq.x + sq.side) as i64, pos: sq.y, side: Side::Negative, axis: Axis::X },
        ],
        final(vertical)@ == old(vertical)@ + seq![
            Edge { start: sq.y, end: (sq.y + sq.side) as i64, pos: (sq.x + sq.side) as i64, side: Side::Positive, axis: Axis::Y },
            Edge { start: sq.y, end: (sq.y + sq.side) as i64, pos: sq.x, side: Side::Negative, axis: Axis::Y },
        ],
{
    let c = sq.corners();
    let top = Edge::new(c[0], c[1], Side::Positive);
    let right = Edge::new(c[1], c[2], Side::Positive);
    let bottom = Edge::new(c[2], c[3], Side::Negative);
    let left = Edge::new(c[3], c[0], Side::Negative);
    let ghost h0 = horizontal@;
    let ghost v0 = vertical@;
    horizontal.push(top);
    horizontal.push(bottom);
    vertical.push(right);
    vertical.push(left);
    proof {
        assert(horizontal@ == h0 + seq![top, bottom]);
        assert(vertical@ == v0 + seq![right, left]);
        assert forall|k: int| 0 <= k < horizontal.len() implies (#[trigger] horizontal@[k]).wf() by {
            if k < h0.len() {
                assert(horizontal@[k] == h0[k]);
            }
        }
        assert forall|k: int| 0 <= k < vertical.len() implies (#[trigger] vertical@[k]).wf() by {
            if k < v0.len() {
                assert(vertical@[k] == v0[k]);
            }
        }
    }
}

/// The ceilings of a run: they start at `max_side`, each drops by exactly
/// `step` from the one before, and every one but the last is at least
/// `min_side`, the last below it.
pub open spec fn ceiling_trace(c: Seq<i64>, config: LayoutConfig) -> bool {
    &&& c.len() >= 1
    &&& c[0] == config.max_side
    &&& forall|i: int| 0 <= i < c.len() - 1 ==> #[trigger] c[i + 1] == c[i] - config.step
    &&& forall|i: int| 0 <= i < c.len() - 1 ==> #[trigger] c[i] >= config.min_side
    &&& c.last() < config.min_side
}

/// Packs squares into `config.bounds`, drawing every random choice from a
/// generator seeded with `seed`.
///
/// A seed square of a drawn allowed side is placed uniformly inside the
/// rectangle; none is placed, and the run ends at once, where that side
/// exceeds the rectangle's width or height. Then, while the size ceiling is at
/// least `min_side`, a side is drawn up to the ceiling; where no position is
/// legal for it the ceiling drops by one step, else a range is drawn by length
/// and a position uniformly within it, and the square is placed there.
pub fn compute_brick_layout_traced(config: &LayoutConfig, seed: u64) -> (r: Layout)
    requires
        config.wf(),
    ensures
        valid_packing(r.squares@, *config),
        r.squares.len() <= grid_cells(config.bounds, config.min_side as int),
        config.min_side > config.bounds.right - config.bounds.left || config.min_side
            > config.bounds.top - config.bounds.bottom ==> r.squares.len() == 0,
        config.max_side <= config.bounds.right - config.bounds.left && config.max_side
            <= config.bounds.top - config.bounds.bottom ==> r.squares.len() >= 1,
        r.squares.len() == 0 <==> r.ceilings.len() == 0,
        r.squares.len() > 0 ==> ceiling_trace(r.ceilings@, *config),
{
    let bounds = config.bounds;
    let min_side = config.min_side;
    let step = config.step;
    let mut rng = seeded(seed);
    let first = sample_side(&mut rng, min_side, config.max_side, step);
    if first > bounds.right - bounds.left || first > bounds.top - bounds.bottom {
        return Layout { squares: Vec::new(), ceilings: Vec::new() };
    }
    let x = draw_between(&mut rng, bounds.left, bounds.right - first);
    let y = draw_between(&mut rng, bounds.bottom, bounds.top - first);
    let seed_square = Square { x, y, side: first };
    let mut squares: Vec<Square> = Vec::new();
    squares.push(seed_square);
    let mut horizontal: Vec<Edge> = Vec::new();
    let mut vertical: Vec<Edge> = Vec::new();
    push_square_edges(seed_square, &mut horizontal, &mut vertical);
    let mut ceiling = config.max_side;
    let mut ceilings: Vec<i64> = Vec::new();
    ceilings.push(ceiling);
    proof {
        assert(squares@ == seq![seed_square]);
        lemma_packing_bound(squares@, bounds, min_side as int);
    }
    while ceiling >= min_side
        invariant
            config.wf(),
            bounds == config.bounds,
            min_side == config.min_side,
            step == config.step,
            valid_packing(squares@, *config),
            forall|k: int| 0 <= k < squares.len() ==> (#[trigger] squares@[k]).wf(),
            1 <= squares.len() <= grid_cells(bounds, min_side as int),
            forall|k: int| 0 <= k < horizontal.len() ==> (#[trigger] horizontal@[k]).wf(),
            forall|k: int| 0 <= k < vertical.len() ==> (#[trigger] vertical@[k]).wf(),
            min_side - step <= ceiling <= config.max_side,
            ceilings.len() >= 1,
            ceilings@[0] == config.max_side,
            ceilings@.last() == ceiling,
            forall|i: int| 0 <= i < ceilings.len() - 1 ==> #[trigger] ceilings@[i + 1] == ceilings@[i] - step,
            forall|i: int| 0 <= i < ceilings.len() - 1 ==> #[trigger] ceilings@[i] >= min_side,
        decreases grid_cells(bounds, min_side as int) - squares.len(), ceiling - min_side + step,
    {
        let size = sample_side(&mut rng, min_side, ceiling, step);
        let candidates = candidate_positions(size, config.cover_slack, &horizontal, &vertical);
        let legal = legal_positions(size, &bounds, &squares, &candidates);
        if legal.len() == 0 {
            let ghost before = ceilings@;
            ceiling = ceiling - step;
            ceilings.push(ceiling);
            proof {
                assert forall|i: int| 0 <= i < ceilings.len() - 1 implies #[trigger] ceilings@[i + 1]
                    == ceilings@[i] - step by {
                    if i + 1 < before.len() {
                        assert(ceilings@[i + 1] == before[i + 1]);
                        assert(ceilings@[i] == before[i]);
                    }
                }
                assert forall|i: int| 0 <= i < ceilings.len() - 1 implies #[trigger] ceilings@[i]
                    >= min_side by {
                    assert(ceilings@[i] == before[i]);
                }
            }
        } else {
            proof {
                assert forall|k: int| 0 <= k < legal.len() implies (#[trigger] legal@[k]).wf()
                    && legal@[k].start < legal@[k].end by {
                    assert(fits(legal@[k], size as int, bounds));
                }
            }
            let (index, offset) = choose_position(&mut rng, &legal);
            let o = &legal[index];
            let sq = square_on(o, offset, size);
            proof {
                assert(fits(*o, size as int, bounds));
                assert(clear_range(*o, size as int, squares@));
                assert(sq.inside(bounds));
                assert forall|k: int| 0 <= k < squares.len() implies !sq.overlaps(#[trigger] squares@[k])
                    && !squares@[k].overlaps(sq) by {
                    assert(!hits(*o, offset as int, size as int, squares@[k]));
                }
                let grown = squares@.push(sq);
                assert forall|k: int| 0 <= k < grown.len() implies (#[trigger] grown[k]).inside(bounds)
                    && config.allows(grown[k].side as int) && grown[k].side >= min_side by {
                    if k < squares.len() {
                        assert(grown[k] == squares@[k]);
                    }
                }
                assert(disjoint(grown)) by {
                    assert forall|i: int, j: int|
                        0 <= i < grown.len() && 0 <= j < grown.len() && i != j implies !(
                        #[trigger] grown[i]).overlaps(#[trigger] grown[j]) by {
                        if i < squares.len() && j < squares.len() {
                            assert(grown[i] == squares@[i]);
                            assert(grown[j] == squares@[j]);
                        } else if i < squares.len() {
                            assert(grown[i] == squares@[i]);
                        } else {
                            assert(grown[j] == squares@[j]);
                        }
                    }
                }
                lemma_packing_bound(grown, bounds, min_side as int);
            }
            squares.push(sq);
            push_square_edges(sq, &mut horizontal, &mut vertical);
            proof {
                assert forall|k: int| 0 <= k < squares.len() implies (#[trigger] squares@[k]).wf() by {
                    if k < squares.len() - 1 {
                        assert(squares@[k] == squares@.drop_last()[k]);
                    }
                }
            }
        }
    }
    Layout { squares, ceilings }
}

/// The squares of `compute_brick_layout_traced` for the same configuration
/// and seed.
pub fn compute_brick_layout(config: &LayoutConfig, seed: u64) -> (r: Vec<Square>)
    requires
        config.wf(),
    ensures
        valid_packing(r@, *config),
        r.len() <= grid_cells(config.bounds, config.min_side as int),
        config.min_side > config.bounds.right - config.bounds.left || config.min_side
            > config.bounds.top - config.bounds.bottom ==> r.len() == 0,
        config.max_side <= config.bounds.right - config.bounds.left && config.max_side
            <= config.bounds.top - config.bounds.bottom ==> r.len() >= 1,
{
    compute_brick_layout_traced(config, seed).squares
}

proof fn lemma_trace_value(c: Seq<i64>, config: LayoutConfig, i: int)
    requires
        ceiling_trace(c, config),
        0 <= i < c.len(),
    ensures
        c[i] == c[0] - i * config.step,
    decreases i,
{
    if i == 0 {
        assert(i * config.step == 0);
    } else {
        lemma_trace_value(c, config, i - 1);
        let p = i - 1;
        assert(c[p + 1] == c[p] - config.step);
        assert(c[i] == c[0] - (i - 1) * config.step - config.step);
        assert((i - 1) * config.step + config.step == i * config.step) by (nonlinear_arith);
    }
}

/// Over a run, the size ceiling never rises, and it is below `min_side`
/// exactly once: at the last value, where the run ends.
pub proof fn lemma_ceiling_monotone(c: Seq<i64>, config: LayoutConfig)
    requires
        config.wf(),
        ceiling_trace(c, config),
    ensures
        forall|i: int, j: int| 0 <= i <= j < c.len() ==> #[trigger] c[j] <= #[trigger] c[i],
        forall|i: int| 0 <= i < c.len() ==> (#[trigger] c[i] < config.min_side <==> i == c.len() - 1),
{
    assert forall|i: int, j: int| 0 <= i <= j < c.len() implies #[trigger] c[j] <= #[trigger] c[i] by {
        lemma_trace_value(c, config, i);
        lemma_trace_value(c, config, j);
        assert(i * config.step <= j * config.step) by (nonlinear_arith)
            requires
                i <= j,
                config.step > 0,
        ;
    }
}

} // verus!
