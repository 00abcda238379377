use vstd::prelude::*;
use vstd::arithmetic::div_mod::lemma_fundamental_div_mod;
use vstd::set_lib::{lemma_int_range, lemma_len_subset, set_int_range};
use crate::geometry::{Rect, Square};

verus! {

/// Pairwise, the squares' interiors do not meet.
pub open spec fn disjoint(squares: Seq<Square>) -> bool {
    forall|i: int, j: int|
        0 <= i < squares.len() && 0 <= j < squares.len() && i != j ==> !(#[trigger] squares[i]).overlaps(
            #[trigger] squares[j],
        )
}

/// The number of cells of side `m` in a grid over `bounds`, one more than fits
/// in each direction.
pub open spec fn grid_cells(bounds: Rect, m: int) -> int {
    ((bounds.right - bounds.left) / m + 1) * ((bounds.top - bounds.bottom) / m + 1)
}

/// The grid cell, numbered row by row, that holds a square's low corner.
pub open spec fn cell_of(sq: Square, bounds: Rect, m: int) -> int {
    ((sq.x - bounds.left) / m) * ((bounds.top - bounds.bottom) / m + 1) + (sq.y - bounds.bottom) / m
}

proof fn lemma_same_cell_close(a: int, b: int, m: int)
    requires
        m > 0,
        a >= 0,
        b >= 0,
        a / m == b / m,
    ensures
        a - b < m,
        b - a < m,
{
    lemma_fundamental_div_mod(a, m);
    lemma_fundamental_div_mod(b, m);
}

proof fn lemma_cell_parts(i1: int, j1: int, i2: int, j2: int, n: int)
    requires
        n > 0,
        0 <= j1 < n,
        0 <= j2 < n,
        i1 >= 0,
        i2 >= 0,
        i1 * n + j1 == i2 * n + j2,
    ensures
        i1 == i2,
        j1 == j2,
{
    if i1 < i2 {
        assert(i1 * n + n <= i2 * n) by (nonlinear_arith)
            requires
                i1 < i2,
                n > 0,
        ;
    } else if i2 < i1 {
        assert(i2 * n + n <= i1 * n) by (nonlinear_arith)
            requires
                i2 < i1,
                n > 0,
        ;
    }
}

/// However they are laid out, non-overlapping squares of side at least `m`
/// inside `bounds` number no more than the grid cells of side `m` over it: no
/// two of them have their low corners in one cell.
pub proof fn lemma_packing_bound(squares: Seq<Square>, bounds: Rect, m: int)
    requires
        m > 0,
        bounds.wf(),
        forall|k: int| 0 <= k < squares.len() ==> (#[trigger] squares[k]).inside(bounds) && squares[k].side >= m,
        disjoint(squares),
    ensures
        squares.len() <= grid_cells(bounds, m),
{
    let w = (bounds.right - bounds.left) / m;
    let n = (bounds.top - bounds.bottom) / m + 1;
    assert(w >= 0 && n >= 1) by {
        lemma_fundamental_div_mod(bounds.right - bounds.left, m);
        lemma_fundamental_div_mod(bounds.top - bounds.bottom, m);
    }
    let codes = squares.map_values(|sq: Square| cell_of(sq, bounds, m));
    assert forall|k: int| 0 <= k < codes.len() implies 0 <= #[trigger] codes[k] < grid_cells(bounds, m) by {
        let sq = squares[k];
        let i = (sq.x - bounds.left) / m;
        let j = (sq.y - bounds.bottom) / m;
        lemma_fundamental_div_mod(sq.x - bounds.left, m);
        lemma_fundamental_div_mod(sq.y - bounds.bottom, m);
        lemma_fundamental_div_mod(bounds.right - bounds.left, m);
        lemma_fundamental_div_mod(bounds.top - bounds.bottom, m);
        assert(0 <= i <= w) by (nonlinear_arith)
            requires
                m > 0,
                0 <= sq.x - bounds.left <= bounds.right - bounds.left,
                i == (sq.x - bounds.left) / m,
                w == (bounds.right - bounds.left) / m,
                sq.x - bounds.left == m * i + (sq.x - bounds.left) % m,
                bounds.right - bounds.left == m * w + (bounds.right - bounds.left) % m,
                0 <= (sq.x - bounds.left) % m < m,
                0 <= (bounds.right - bounds.left) % m < m,
        ;
        assert(0 <= j < n) by (nonlinear_arith)
            requires
                m > 0,
                0 <= sq.y - bounds.bottom <= bounds.top - bounds.bottom,
                j == (sq.y - bounds.bottom) / m,
                n == (bounds.top - bounds.bottom) / m + 1,
                sq.y - bounds.bottom == m * j + (sq.y - bounds.bottom) % m,
                bounds.top - bounds.bottom == m * (n - 1) + (bounds.top - bounds.bottom) % m,
                0 <= (sq.y - bounds.bottom) % m < m,
                0 <= (bounds.top - bounds.bottom) % m < m,
        ;
        assert(codes[k] == i * n + j);
        assert(0 <= i * n + j < (w + 1) * n) by (nonlinear_arith)
            requires
                0 <= i <= w,
                0 <= j < n,
        ;
    }
    assert(codes.no_duplicates()) by {
        assert forall|a: int, b: int| 0 <= a < codes.len() && 0 <= b < codes.len() && a != b implies codes[a]
            != codes[b] by {
            let s1 = squares[a];
            let s2 = squares[b];
            if codes[a] == codes[b] {
                let i1 = (s1.x - bounds.left) / m;
                let j1 = (s1.y - bounds.bottom) / m;
                let i2 = (s2.x - bounds.left) / m;
                let j2 = (s2.y - bounds.bottom) / m;
                lemma_fundamental_div_mod(s1.x - bounds.left, m);
                lemma_fundamental_div_mod(s1.y - bounds.bottom, m);
                lemma_fundamental_div_mod(s2.x - bounds.left, m);
                lemma_fundamental_div_mod(s2.y - bounds.bottom, m);
                lemma_fundamental_div_mod(bounds.top - bounds.bottom, m);
                assert(0 <= j1 < n && 0 <= j2 < n && i1 >= 0 && i2 >= 0) by (nonlinear_arith)
                    requires
                        m > 0,
                        0 <= s1.y - bounds.bottom <= bounds.top - bounds.bottom,
                        0 <= s2.y - bounds.bottom <= bounds.top - bounds.bottom,
                        0 <= s1.x - bounds.left,
                        0 <= s2.x - bounds.left,
                        i1 == (s1.x - bounds.left) / m,
                        i2 == (s2.x - bounds.left) / m,
                        j1 == (s1.y - bounds.bottom) / m,
                        j2 == (s2.y - bounds.bottom) / m,
                        n == (bounds.top - bounds.bottom) / m + 1,
                        s1.x - bounds.left == m * i1 + (s1.x - bounds.left) % m,
                        s2.x - bounds.left == m * i2 + (s2.x - bounds.left) % m,
                        s1.y - bounds.bottom == m * j1 + (s1.y - bounds.bottom) % m,
                        s2.y - bounds.bottom == m * j2 + (s2.y - bounds.bottom) % m,
                        bounds.top - bounds.bottom == m * (n - 1) + (bounds.top - bounds.bottom) % m,
                        0 <= (s1.x - bounds.left) % m < m,
                        0 <= (s2.x - bounds.left) % m < m,
                        0 <= (s1.y - bounds.bottom) % m < m,
                        0 <= (s2.y - bounds.bottom) % m < m,
                        0 <= (bounds.top - bounds.bottom) % m < m,
                ;
                lemma_cell_parts(i1, j1, i2, j2, n);
                lemma_same_cell_close(s1.x - bounds.left, s2.x - bounds.left, m);
                lemma_same_cell_close(s1.y - bounds.bottom, s2.y - bounds.bottom, m);
                assert(s1.overlaps(s2));
            }
        }
    }
    codes.unique_seq_to_set();
    let cap = grid_cells(bounds, m);
    assert(cap >= 0) by (nonlinear_arith)
        requires
            cap == (w + 1) * n,
            w >= 0,
            n >= 1,
    ;
    lemma_int_range(0, cap);
    assert(codes.to_set().subset_of(set_int_range(0, cap))) by {
        assert forall|c: int| codes.to_set().contains(c) implies set_int_range(0, cap).contains(c) by {
            let k = choose|k: int| 0 <= k < codes.len() && codes[k] == c;
        }
    }
    lemma_len_subset(codes.to_set(), set_int_range(0, cap));
}

} // verus!
