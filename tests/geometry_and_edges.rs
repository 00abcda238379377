use brick_layout::bounds::truncate_out_of_bounds;
use brick_layout::finder::get_square_positions;
use brick_layout::geometry::{Axis, Edge, Point, Rect, Side, Square};
use brick_layout::intervals::{free_runs, sort_by_end_desc};
use brick_layout::placement::clip_against;
use brick_layout::tracker::truncate_overlapping_edges;

fn edge(start: i64, end: i64, pos: i64, side: Side, axis: Axis) -> Edge {
    Edge { start, end, pos, side, axis }
}

#[test]
fn edge_new_orders_horizontal_points() {
    let e = Edge::new(Point { x: 7, y: 3 }, Point { x: -2, y: 3 }, Side::Positive);
    assert_eq!(e, edge(-2, 7, 3, Side::Positive, Axis::X));
}

#[test]
fn edge_new_orders_vertical_points() {
    let e = Edge::new(Point { x: 4, y: 9 }, Point { x: 4, y: 1 }, Side::Negative);
    assert_eq!(e, edge(1, 9, 4, Side::Negative, Axis::Y));
}

#[test]
fn edge_new_single_point_is_horizontal() {
    let e = Edge::new(Point { x: 5, y: 5 }, Point { x: 5, y: 5 }, Side::Negative);
    assert_eq!(e, edge(5, 5, 5, Side::Negative, Axis::X));
}

#[test]
fn square_corners_run_clockwise_from_top_left() {
    let sq = Square { x: 2, y: 3, side: 4 };
    let c = sq.corners();
    assert_eq!(c[0], Point { x: 2, y: 7 });
    assert_eq!(c[1], Point { x: 6, y: 7 });
    assert_eq!(c[2], Point { x: 6, y: 3 });
    assert_eq!(c[3], Point { x: 2, y: 3 });
}

#[test]
fn rect_centered_on_origin() {
    let r = Rect::centered(0, 0, 200, 100);
    assert_eq!(r, Rect { left: -100, bottom: -50, right: 100, top: 50 });
    let odd = Rect::centered(10, 0, 5, 5);
    assert_eq!(odd, Rect { left: 8, bottom: -2, right: 13, top: 3 });
}

#[test]
fn masks_sorted_by_descending_end() {
    let sorted = sort_by_end_desc(&vec![(0, 3), (5, 9), (1, 3), (2, 6)]);
    assert_eq!(sorted, vec![(5, 9), (2, 6), (0, 3), (1, 3)]);
}

#[test]
fn free_runs_between_masks() {
    let runs = free_runs(0, 10, &vec![(2, 4), (6, 7)]);
    assert_eq!(runs, vec![(7, 10), (4, 6), (0, 2)]);
}

#[test]
fn free_runs_without_masks_is_whole_range() {
    assert_eq!(free_runs(-3, 8, &vec![]), vec![(-3, 8)]);
    assert_eq!(free_runs(4, 4, &vec![]), vec![]);
}

#[test]
fn free_runs_with_nested_masks_leave_nothing() {
    let runs = free_runs(0, 10, &vec![(0, 10), (5, 8)]);
    assert_eq!(runs, vec![]);
}

#[test]
fn facing_edges_consume_each_other() {
    let top_of_a = edge(0, 10, 10, Side::Positive, Axis::X);
    let bottom_of_b = edge(5, 15, 10, Side::Negative, Axis::X);
    let free = truncate_overlapping_edges(&vec![top_of_a, bottom_of_b]);
    assert_eq!(
        free,
        vec![edge(0, 5, 10, Side::Positive, Axis::X), edge(10, 15, 10, Side::Negative, Axis::X)]
    );
}

#[test]
fn same_polarity_or_other_line_does_not_consume() {
    let a = edge(0, 10, 10, Side::Positive, Axis::X);
    let b = edge(0, 10, 10, Side::Positive, Axis::X);
    let c = edge(0, 10, 11, Side::Negative, Axis::X);
    let free = truncate_overlapping_edges(&vec![a, b, c]);
    assert_eq!(free, vec![a, b, c]);
}

#[test]
fn touching_edges_do_not_consume() {
    let a = edge(0, 10, 10, Side::Positive, Axis::X);
    let b = edge(10, 20, 10, Side::Negative, Axis::X);
    let free = truncate_overlapping_edges(&vec![a, b]);
    assert_eq!(free, vec![a, b]);
}

fn unit_square_edges() -> (Vec<Edge>, Vec<Edge>) {
    let horizontal = vec![
        edge(0, 10, 10, Side::Positive, Axis::X),
        edge(0, 10, 0, Side::Negative, Axis::X),
    ];
    let vertical = vec![
        edge(0, 10, 10, Side::Positive, Axis::Y),
        edge(0, 10, 0, Side::Negative, Axis::Y),
    ];
    (horizontal, vertical)
}

#[test]
fn positions_around_a_single_square() {
    let (horizontal, vertical) = unit_square_edges();
    let found = get_square_positions(10, &horizontal, &vertical, 0);
    assert_eq!(
        found,
        vec![
            edge(-10, 10, 10, Side::Positive, Axis::X),
            edge(-10, 10, -10, Side::Negative, Axis::X),
        ]
    );
}

#[test]
fn mirrored_edges_give_mirrored_positions() {
    let (horizontal, vertical) = unit_square_edges();
    for size in [4, 10, 25] {
        let along_x = get_square_positions(size, &horizontal, &vertical, 0);
        let along_y = get_square_positions(size, &vertical, &horizontal, 0);
        assert_eq!(along_x.len(), along_y.len());
        assert!(!along_x.is_empty());
        for (a, b) in along_x.iter().zip(along_y.iter()) {
            assert_eq!((a.start, a.end, a.pos, a.side), (b.start, b.end, b.pos, b.side));
            assert_eq!(a.axis, Axis::X);
            assert_eq!(b.axis, Axis::Y);
        }
    }
}

#[test]
fn blocking_edge_closes_the_window() {
    // the top of a square of side 10 at the origin, and the sides of a second
    // one of side 10 at (15, 10), sitting on that top line
    let parallel = vec![edge(0, 10, 10, Side::Positive, Axis::X)];
    let vertical = vec![
        edge(0, 10, 10, Side::Positive, Axis::Y),
        edge(0, 10, 0, Side::Negative, Axis::Y),
        edge(10, 20, 25, Side::Positive, Axis::Y),
        edge(10, 20, 15, Side::Negative, Axis::Y),
    ];
    let found = get_square_positions(10, &parallel, &vertical, 0);
    // the second square's left side closes the window: low corners from -10
    // up to 15 - 10
    assert_eq!(found, vec![edge(-10, 5, 10, Side::Positive, Axis::X)]);
}

#[test]
fn spanned_position_is_redundant() {
    let parallel = vec![
        edge(0, 10, 10, Side::Positive, Axis::X),
        edge(-20, 30, 15, Side::Positive, Axis::X),
    ];
    let found = get_square_positions(10, &parallel, &vec![], 0);
    // the window on the first edge is run through by the second one
    assert_eq!(found, vec![edge(-30, 30, 15, Side::Positive, Axis::X)]);
}

#[test]
fn slack_widens_what_counts_as_spanned() {
    let parallel = vec![
        edge(0, 10, 10, Side::Positive, Axis::X),
        edge(-8, 18, 15, Side::Positive, Axis::X),
    ];
    let tight = get_square_positions(10, &parallel, &vec![], 0);
    assert!(tight.iter().any(|e| e.pos == 10));
    let loose = get_square_positions(10, &parallel, &vec![], 2);
    assert!(loose.iter().all(|e| e.pos != 10));
}

#[test]
fn out_of_bounds_positions_are_clipped_or_dropped() {
    let positions = vec![
        edge(-10, 10, 10, Side::Positive, Axis::X),
        edge(-10, 10, -10, Side::Negative, Axis::X),
    ];
    let kept = truncate_out_of_bounds(10, &positions, &Rect { left: -12, bottom: -5, right: 18, top: 30 });
    assert_eq!(kept, vec![edge(-10, 8, 10, Side::Positive, Axis::X)]);
    let all = truncate_out_of_bounds(10, &positions, &Rect { left: -20, bottom: -20, right: 20, top: 20 });
    assert_eq!(all, positions);
    let none = truncate_out_of_bounds(10, &positions, &Rect { left: -5, bottom: -20, right: 4, top: 20 });
    assert_eq!(none, vec![]);
}

#[test]
fn clip_against_removes_overlapping_positions() {
    let o = edge(-10, 10, 10, Side::Positive, Axis::X);
    let apart = clip_against(o, 10, &vec![Square { x: 0, y: 0, side: 10 }]);
    assert_eq!(apart, vec![o]);
    let blocked = clip_against(o, 10, &vec![Square { x: 0, y: 0, side: 10 }, Square { x: -5, y: 15, side: 5 }]);
    assert_eq!(blocked, vec![edge(0, 10, 10, Side::Positive, Axis::X)]);
}

#[test]
fn footprint_of_a_range() {
    let o = edge(-10, 8, 10, Side::Positive, Axis::X);
    assert_eq!(o.get_square(10), (-10, 18, 10, 20));
}

#[test]
fn rect_bounds_along_each_axis() {
    let r = Rect { left: -3, bottom: 2, right: 7, top: 9 };
    assert_eq!(r.along(Axis::X), (-3, 7));
    assert_eq!(r.along(Axis::Y), (2, 9));
}

#[test]
fn degenerate_edges_neither_survive_nor_consume() {
    let point = edge(5, 5, 10, Side::Negative, Axis::X);
    let top = edge(0, 10, 10, Side::Positive, Axis::X);
    let free = truncate_overlapping_edges(&vec![point, top]);
    assert_eq!(free, vec![top]);
}

#[test]
fn degenerate_parallel_edge_still_reaches_around() {
    // a point-sized edge gives squares touching that point on its open side
    let point = edge(5, 5, 10, Side::Positive, Axis::X);
    let found = get_square_positions(4, &vec![point], &vec![], 0);
    assert_eq!(found, vec![edge(1, 5, 10, Side::Positive, Axis::X)]);
}
