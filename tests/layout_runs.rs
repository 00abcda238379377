use brick_layout::geometry::{Axis, Edge, Rect, Side, Square};
use brick_layout::layout::{
    choose_position, compute_brick_layout, compute_brick_layout_traced, position_weights,
    sample_side, square_on, LayoutConfig,
};
use brick_layout::finder::get_square_positions;
use brick_layout::placement::legal_positions;
use rand::rngs::StdRng;
use rand::SeedableRng;

fn config(width: i64, height: i64, min_side: i64, max_side: i64, step: i64) -> LayoutConfig {
    LayoutConfig {
        bounds: Rect::centered(0, 0, width, height),
        min_side,
        max_side,
        step,
        cover_slack: 0,
    }
}

fn overlaps(a: &Square, b: &Square) -> bool {
    a.x < b.x + b.side && b.x < a.x + a.side && a.y < b.y + b.side && b.y < a.y + a.side
}

fn check_packing(squares: &[Square], cfg: &LayoutConfig) {
    let b = cfg.bounds;
    for (i, s) in squares.iter().enumerate() {
        assert!(b.left <= s.x && s.x + s.side <= b.right, "square {i} leaves the rectangle");
        assert!(b.bottom <= s.y && s.y + s.side <= b.top, "square {i} leaves the rectangle");
        assert!(cfg.min_side <= s.side && s.side <= cfg.max_side);
        assert_eq!((s.side - cfg.min_side) % cfg.step, 0);
        for (j, t) in squares.iter().enumerate() {
            if i != j {
                assert!(!overlaps(s, t), "squares {i} and {j} overlap");
            }
        }
    }
}

#[test]
fn square_area_two_hundred_with_three_sizes() {
    let cfg = config(200, 200, 20, 40, 10);
    for seed in [0u64, 1, 2, 3, 42, 1234567, u64::MAX] {
        let layout = compute_brick_layout_traced(&cfg, seed);
        assert!(!layout.squares.is_empty());
        // at most one low corner per 20 x 20 cell of an 11 x 11 grid
        assert!(layout.squares.len() <= 121);
        check_packing(&layout.squares, &cfg);
        let c = &layout.ceilings;
        assert_eq!(c[0], 40);
        assert_eq!(*c.last().unwrap(), 10);
        assert_eq!(c, &vec![40, 30, 20, 10]);
    }
}

#[test]
fn packing_fills_a_good_part_of_the_area() {
    let cfg = config(200, 200, 20, 40, 10);
    let squares = compute_brick_layout(&cfg, 99);
    let area: i64 = squares.iter().map(|s| s.side * s.side).sum();
    assert!(area * 2 >= 200 * 200, "covered only {area}");
}

#[test]
fn ceilings_never_rise_and_end_below_minimum() {
    let cfg = config(300, 120, 15, 60, 15);
    for seed in 0..5u64 {
        let layout = compute_brick_layout_traced(&cfg, seed);
        let c = &layout.ceilings;
        for w in c.windows(2) {
            assert_eq!(w[1], w[0] - 15);
        }
        let below: Vec<usize> = (0..c.len()).filter(|&i| c[i] < 15).collect();
        assert_eq!(below, vec![c.len() - 1]);
        check_packing(&layout.squares, &cfg);
    }
}

#[test]
fn minimum_wider_than_the_area_places_nothing() {
    let cfg = config(200, 100, 120, 150, 10);
    let layout = compute_brick_layout_traced(&cfg, 5);
    assert!(layout.squares.is_empty());
    assert!(layout.ceilings.is_empty());
    let cfg = config(100, 200, 120, 120, 10);
    assert!(compute_brick_layout(&cfg, 6).is_empty());
}

#[test]
fn only_the_seed_square_fits() {
    // a 50 x 50 square in a 60 x 60 area leaves no room for another
    let cfg = config(60, 60, 50, 50, 10);
    let layout = compute_brick_layout_traced(&cfg, 11);
    assert_eq!(layout.squares.len(), 1);
    assert_eq!(layout.squares[0].side, 50);
    assert_eq!(layout.ceilings, vec![50, 40]);
}

#[test]
fn exact_fit_area_is_tiled() {
    // sides of exactly the area: one square, and it fills it
    let cfg = config(40, 40, 40, 40, 5);
    let squares = compute_brick_layout(&cfg, 3);
    assert_eq!(squares, vec![Square { x: -20, y: -20, side: 40 }]);
}

#[test]
fn same_seed_same_layout() {
    let cfg = config(400, 250, 20, 80, 20);
    for seed in [7u64, 8, 9] {
        let a = compute_brick_layout_traced(&cfg, seed);
        let b = compute_brick_layout_traced(&cfg, seed);
        assert_eq!(a.squares, b.squares);
        assert_eq!(a.ceilings, b.ceilings);
    }
}

#[test]
fn sampled_sides_are_on_the_grid() {
    let mut rng = StdRng::seed_from_u64(1);
    let mut seen = [false; 4];
    for _ in 0..400 {
        let s = sample_side(&mut rng, 25, 60, 10);
        assert!(25 <= s && s <= 55);
        assert_eq!((s - 25) % 10, 0);
        seen[((s - 25) / 10) as usize] = true;
    }
    assert_eq!(seen, [true; 4]);
    assert_eq!(sample_side(&mut rng, 30, 30, 10), 30);
}

#[test]
fn weighted_choice_follows_lengths() {
    let candidates = vec![
        Edge { start: 0, end: 100, pos: 0, side: Side::Positive, axis: Axis::X },
        Edge { start: 1000, end: 1300, pos: 0, side: Side::Positive, axis: Axis::X },
    ];
    let mut rng = StdRng::seed_from_u64(2024);
    let mut counts = [0u32; 2];
    let draws = 40_000;
    for _ in 0..draws {
        let (i, offset) = choose_position(&mut rng, &candidates);
        assert!(candidates[i].start <= offset && offset <= candidates[i].end);
        counts[i] += 1;
    }
    let share = counts[1] as f64 / draws as f64;
    assert!((share - 0.75).abs() < 0.02, "share of the longer range: {share}");
}

#[test]
fn square_on_places_along_each_axis() {
    let along_x = Edge { start: -10, end: 10, pos: 10, side: Side::Positive, axis: Axis::X };
    assert_eq!(square_on(&along_x, 3, 10), Square { x: 3, y: 10, side: 10 });
    let along_y = Edge { start: -10, end: 10, pos: -10, side: Side::Negative, axis: Axis::Y };
    assert_eq!(square_on(&along_y, 4, 10), Square { x: -10, y: 4, side: 10 });
}

#[test]
fn legal_positions_around_seed_square() {
    let bounds = Rect { left: -20, bottom: -20, right: 20, top: 20 };
    let seed = Square { x: -5, y: -5, side: 10 };
    let horizontal = vec![
        Edge { start: -5, end: 5, pos: 5, side: Side::Positive, axis: Axis::X },
        Edge { start: -5, end: 5, pos: -5, side: Side::Negative, axis: Axis::X },
    ];
    let vertical = vec![
        Edge { start: -5, end: 5, pos: 5, side: Side::Positive, axis: Axis::Y },
        Edge { start: -5, end: 5, pos: -5, side: Side::Negative, axis: Axis::Y },
    ];
    let mut candidates = get_square_positions(10, &horizontal, &vertical, 0);
    candidates.extend(get_square_positions(10, &vertical, &horizontal, 0));
    let legal = legal_positions(10, &bounds, &vec![seed], &candidates);
    assert_eq!(
        legal,
        vec![
            Edge { start: -15, end: 5, pos: 5, side: Side::Positive, axis: Axis::X },
            Edge { start: -15, end: 5, pos: -15, side: Side::Negative, axis: Axis::X },
            Edge { start: -15, end: 5, pos: 5, side: Side::Positive, axis: Axis::Y },
            Edge { start: -15, end: 5, pos: -15, side: Side::Negative, axis: Axis::Y },
        ]
    );
    // a square of side 20 fits on no side of the seed inside a 40 x 40 area
    let mut big = get_square_positions(20, &horizontal, &vertical, 0);
    big.extend(get_square_positions(20, &vertical, &horizontal, 0));
    assert_eq!(big.len(), 4);
    let none = legal_positions(20, &bounds, &vec![seed], &big);
    assert_eq!(none, vec![]);
}

#[test]
fn legal_positions_skip_occupied_cells() {
    let bounds = Rect { left: 0, bottom: 0, right: 100, top: 100 };
    let candidates = vec![Edge { start: 0, end: 90, pos: 0, side: Side::Positive, axis: Axis::X }];
    // a square of side 10 at x = 40 on the bottom row blocks low corners 31..=49
    let placed = vec![Square { x: 40, y: 0, side: 10 }];
    let legal = legal_positions(10, &bounds, &placed, &candidates);
    assert_eq!(
        legal,
        vec![
            Edge { start: 50, end: 90, pos: 0, side: Side::Positive, axis: Axis::X },
            Edge { start: 0, end: 30, pos: 0, side: Side::Positive, axis: Axis::X },
        ]
    );
}

#[test]
fn weights_are_range_lengths() {
    let candidates = vec![
        Edge { start: 0, end: 100, pos: 0, side: Side::Positive, axis: Axis::X },
        Edge { start: 1000, end: 1300, pos: 5, side: Side::Negative, axis: Axis::Y },
        Edge { start: -7, end: -6, pos: 5, side: Side::Negative, axis: Axis::Y },
    ];
    assert_eq!(position_weights(&candidates), vec![100, 300, 1]);
    assert_eq!(position_weights(&vec![]), Vec::<u64>::new());
}
