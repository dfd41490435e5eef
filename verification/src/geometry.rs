//! The shape of the board: which cells touch which, and the liberties of a
//! set of stones.
//!
//! Cells are numbered row by row from zero; a board of side `size` has
//! `size * size` of them. Two cells touch when they are next to each other in
//! a row or in a column: rows do not wrap round.

use vstd::prelude::*;
use crate::colour::Colour;

verus! {

/// The number of cells on a board of side `size`.
pub open spec fn cell_count(size: usize) -> int {
    size * size
}

/// The cells that touch `cell`, in the order above, left, below, right.
pub open spec fn neighbours(size: usize, cell: usize) -> Seq<usize> {
    let above = if cell >= size {
        seq![(cell - size) as usize]
    } else {
        Seq::empty()
    };
    let left = if cell % size > 0 {
        seq![(cell - 1) as usize]
    } else {
        Seq::empty()
    };
    let below = if cell + size < cell_count(size) {
        seq![(cell + size) as usize]
    } else {
        Seq::empty()
    };
    let right = if cell % size + 1 < size {
        seq![(cell + 1) as usize]
    } else {
        Seq::empty()
    };
    above + left + below + right
}

/// Whether `other` touches `cell` on a board of side `size`.
pub open spec fn adjacent(size: usize, cell: usize, other: usize) -> bool {
    &&& cell < cell_count(size)
    &&& {
        ||| cell >= size && other == cell - size
        ||| cell % size > 0 && other == cell - 1
        ||| cell + size < cell_count(size) && other == cell + size
        ||| cell % size + 1 < size && other == cell + 1
    }
}

/// A neighbour list holds exactly the cells that touch.
pub proof fn lemma_neighbours_adjacent(size: usize, cell: usize, other: usize)
    requires
        cell < cell_count(size) <= usize::MAX,
    ensures
        neighbours(size, cell).contains(other) <==> adjacent(size, cell, other),
        neighbours(size, cell).len() <= 4,
{
    let above = if cell >= size {
        seq![(cell - size) as usize]
    } else {
        Seq::empty()
    };
    let left = if cell % size > 0 {
        seq![(cell - 1) as usize]
    } else {
        Seq::empty()
    };
    let below = if cell + size < cell_count(size) {
        seq![(cell + size) as usize]
    } else {
        Seq::empty()
    };
    let right = if cell % size + 1 < size {
        seq![(cell + 1) as usize]
    } else {
        Seq::empty()
    };
    let all = above + left + below + right;
    assert(all == neighbours(size, cell));
    assert(cell % size > 0 ==> cell >= 1) by {
        if cell == 0 && size > 0 {
            vstd::arithmetic::div_mod::lemma_small_mod(0, size as nat);
        }
    }
    if adjacent(size, cell, other) {
        if cell >= size && other == cell - size {
            assert(all[0] == other);
        } else if cell % size > 0 && other == cell - 1 {
            assert(all[above.len() as int] == other);
        } else if cell + size < cell_count(size) && other == cell + size {
            assert(all[(above.len() + left.len()) as int] == other);
        } else {
            assert(all[(above.len() + left.len() + below.len()) as int] == other);
        }
    }
    if all.contains(other) {
        let k = choose|k: int| 0 <= k < all.len() && all[k] == other;
        if k < above.len() {
            assert(all[k] == above[k]);
        } else if k < above.len() + left.len() {
            assert(all[k] == left[k - above.len()]);
        } else if k < above.len() + left.len() + below.len() {
            assert(all[k] == below[k - above.len() - left.len()]);
        } else {
            assert(all[k] == right[k - above.len() - left.len() - below.len()]);
        }
    }
}

/// A cell that touches a cell of the board is itself on the board, and
/// touching goes both ways.
pub proof fn lemma_adjacent_symmetric(size: usize, cell: usize, other: usize)
    requires
        adjacent(size, cell, other),
    ensures
        other < cell_count(size),
        adjacent(size, other, cell),
        other != cell,
{
    let s = size as int;
    let c = cell as int;
    assert(s > 0) by (nonlinear_arith)
        requires
            c < s * s,
            c >= 0,
            s >= 0,
    ;
    vstd::arithmetic::div_mod::lemma_fundamental_div_mod(c, s);
    vstd::arithmetic::div_mod::lemma_mod_bound(c, s);
    let q = c / s;
    let r = c % s;
    assert(q < s) by (nonlinear_arith)
        requires
            c == s * q + r,
            0 <= r,
            c < s * s,
            s > 0,
    ;
    if cell >= size && other == cell - size {
        assert(other + size < cell_count(size));
    } else if cell % size > 0 && other == cell - 1 {
        assert(c - 1 == q * s + (r - 1)) by (nonlinear_arith)
            requires
                c == s * q + r,
        ;
        vstd::arithmetic::div_mod::lemma_fundamental_div_mod_converse(c - 1, s, q, r - 1);
        assert((c - 1) % s + 1 < s);
    } else if cell + size < cell_count(size) && other == cell + size {
    } else {
        assert(c + 1 == q * s + (r + 1)) by (nonlinear_arith)
            requires
                c == s * q + r,
        ;
        vstd::arithmetic::div_mod::lemma_fundamental_div_mod_converse(c + 1, s, q, r + 1);
        assert((c + 1) % s > 0);
        assert(c + 1 < s * s) by (nonlinear_arith)
            requires
                c == s * q + r,
                r + 1 < s,
                q < s,
                q >= 0,
        ;
    }
}

/// Whether `cell` is a liberty of the stones at `points`: an empty cell of
/// the board that touches one of them.
pub open spec fn is_liberty(points: Set<usize>, grid: Seq<Colour>, size: usize, cell: usize)
    -> bool {
    &&& cell < grid.len()
    &&& grid[cell as int] == Colour::Empty
    &&& exists|p: usize| #[trigger] points.contains(p) && adjacent(size, p, cell)
}

/// The liberties of the stones at `points`, each counted once however many
/// stones it touches.
pub open spec fn liberties(points: Set<usize>, grid: Seq<Colour>, size: usize) -> Set<usize> {
    Set::new(|cell: usize| is_liberty(points, grid, size, cell))
}

/// Whether the stones at `points` have a liberty.
pub open spec fn has_liberty(points: Set<usize>, grid: Seq<Colour>, size: usize) -> bool {
    exists|cell: usize| is_liberty(points, grid, size, cell)
}

/// Stones have finitely many liberties, and have a liberty exactly when their
/// set of liberties is not empty.
pub proof fn lemma_has_liberty_counts(points: Set<usize>, grid: Seq<Colour>, size: usize)
    requires
        grid.len() <= usize::MAX,
    ensures
        liberties(points, grid, size).finite(),
        liberties(points, grid, size).len() <= grid.len(),
        has_liberty(points, grid, size) <==> liberties(points, grid, size).len() > 0,
{
    let all = liberties(points, grid, size);
    let board = Set::<usize>::range(0, grid.len() as usize);
    vstd::set_lib::range_set_properties::<usize>(0, grid.len() as usize);
    assert(all.subset_of(board));
    vstd::set_lib::lemma_set_subset_finite(board, all);
    vstd::set_lib::lemma_len_subset(all, board);
    if has_liberty(points, grid, size) {
        let cell = choose|cell: usize| is_liberty(points, grid, size, cell);
        assert(all.contains(cell));
        if all.len() == 0 {
            all.lemma_len0_is_empty();
        }
    }
    if all.len() > 0 {
        let cell = all.choose();
        assert(all.contains(cell));
        assert(is_liberty(points, grid, size, cell));
    }
}

/// The cells that touch `cell`, in the order above, left, below, right.
pub fn neighbour_cells(size: usize, cell: usize) -> (cells: Vec<usize>)
    requires
        cell < cell_count(size) <= usize::MAX,
    ensures
        cells@ == neighbours(size, cell),
{
    proof {
        let s = size as int;
        let c = cell as int;
        assert(s > 0) by (nonlinear_arith)
            requires
                c < s * s,
                c >= 0,
                s >= 0,
        ;
        vstd::arithmetic::div_mod::lemma_fundamental_div_mod(c, s);
        vstd::arithmetic::div_mod::lemma_mod_bound(c, s);
        let q = c / s;
        let r = c % s;
        assert(0 <= q < s) by (nonlinear_arith)
            requires
                c == s * q + r,
                0 <= r < s,
                0 <= c < s * s,
                s > 0,
        ;
        assert((q - 1) * s + r == c - s) by (nonlinear_arith)
            requires
                c == s * q + r,
        ;
        assert((q + 1) * s + r == c + s) by (nonlinear_arith)
            requires
                c == s * q + r,
        ;
        assert(q * s + r == c) by (nonlinear_arith)
            requires
                c == s * q + r,
        ;
        assert(q > 0 <==> c >= s) by (nonlinear_arith)
            requires
                c == s * q + r,
                0 <= r < s,
                q >= 0,
        ;
        assert(q < s - 1 <==> c + s < s * s) by (nonlinear_arith)
            requires
                c == s * q + r,
                0 <= r < s,
                0 <= q < s,
        ;
    }
    let x: usize = cell / size;
    let y: usize = cell % size;
    let mut indices: Vec<usize> = Vec::new();
    if x > 0 {
        indices.push((x - 1) * size + y);
    }
    if y > 0 {
        indices.push(x * size + y - 1);
    }
    if x < size - 1 {
        indices.push((x + 1) * size + y);
    }
    if y < size - 1 {
        indices.push(x * size + y + 1);
    }
    assert(indices@ =~= neighbours(size, cell));
    indices
}

} // verus!
