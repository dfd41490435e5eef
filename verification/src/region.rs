//! Regions of empty cells: what a flood fill finds.
//!
//! A walk goes from cell to touching cell and, after its first cell, steps
//! on empty cells only. The region of a cell is everything that a walk from
//! it reaches. For an empty cell that is the maximal connected area of empty
//! cells around it.

use vstd::prelude::*;
use std::collections::HashSet;
use crate::colour::Colour;
use crate::geometry::{adjacent, cell_count, lemma_adjacent_symmetric, lemma_neighbours_adjacent,
    neighbour_cells, neighbours};
use crate::group_state::touching_pairs;

verus! {

broadcast use vstd::std_specs::hash::group_hash_axioms;

/// Whether `path` may go on from its cell number `i` to the next: the two
/// touch and the next is empty.
pub open spec fn is_step(grid: Seq<Colour>, size: usize, path: Seq<usize>, i: int) -> bool {
    adjacent(size, path[i], path[i + 1]) && grid[path[i + 1] as int] == Colour::Empty
}

/// Whether `path` is a walk on the board that `grid` shows.
pub open spec fn is_walk(grid: Seq<Colour>, size: usize, path: Seq<usize>) -> bool {
    &&& path.len() > 0
    &&& forall|i: int| 0 <= i < path.len() - 1 ==> #[trigger] is_step(grid, size, path, i)
}

/// Whether a walk leads from `from` to `to`.
pub open spec fn reaches(grid: Seq<Colour>, size: usize, from: usize, to: usize) -> bool {
    exists|path: Seq<usize>|
        #![trigger is_walk(grid, size, path)]
        is_walk(grid, size, path) && path[0] == from && path.last() == to
}

/// The cells that a walk from `start` reaches, `start` among them.
pub open spec fn region(grid: Seq<Colour>, size: usize, start: usize) -> Set<usize> {
    Set::new(|cell: usize| reaches(grid, size, start, cell))
}

/// Whether the cells at `points` touch a cell that shows `colour`.
pub open spec fn borders(points: Set<usize>, grid: Seq<Colour>, size: usize, colour: Colour)
    -> bool {
    exists|p: usize, a: usize|
        #![trigger points.contains(p), adjacent(size, p, a)]
        points.contains(p) && adjacent(size, p, a) && a < grid.len() && grid[a as int] == colour
}

/// Whether a set of cells, once a walk is in it, keeps the walk.
pub open spec fn closed(cells: Set<usize>, grid: Seq<Colour>, size: usize) -> bool {
    forall|p: usize, a: usize|
        #![trigger cells.contains(p), adjacent(size, p, a)]
        cells.contains(p) && adjacent(size, p, a) && a < grid.len() && grid[a as int]
            == Colour::Empty ==> cells.contains(a)
}

/// Every cell is in its own region.
pub proof fn lemma_reaches_self(grid: Seq<Colour>, size: usize, cell: usize)
    ensures
        reaches(grid, size, cell, cell),
{
    let path = seq![cell];
    assert(is_walk(grid, size, path));
    assert(path[0] == cell && path.last() == cell);
}

/// A walk can be made one empty cell longer.
pub proof fn lemma_reaches_step(grid: Seq<Colour>, size: usize, start: usize, p: usize, a: usize)
    requires
        reaches(grid, size, start, p),
        adjacent(size, p, a),
        a < grid.len(),
        grid[a as int] == Colour::Empty,
    ensures
        reaches(grid, size, start, a),
{
    let path = choose|path: Seq<usize>|
        #![trigger is_walk(grid, size, path)]
        is_walk(grid, size, path) && path[0] == start && path.last() == p;
    let longer = path.push(a);
    assert forall|i: int| 0 <= i < longer.len() - 1 implies #[trigger] is_step(
        grid,
        size,
        longer,
        i,
    ) by {
        if i < path.len() - 1 {
            assert(is_step(grid, size, path, i));
        }
    }
    assert(is_walk(grid, size, longer));
    assert(longer[0] == start && longer.last() == a);
}

/// An empty cell can be put in front of a walk that starts on an empty cell
/// next to it.
pub proof fn lemma_reaches_from(grid: Seq<Colour>, size: usize, a: usize, p: usize, end: usize)
    requires
        reaches(grid, size, p, end),
        adjacent(size, a, p),
        p < grid.len(),
        grid[p as int] == Colour::Empty,
    ensures
        reaches(grid, size, a, end),
{
    let path = choose|path: Seq<usize>|
        #![trigger is_walk(grid, size, path)]
        is_walk(grid, size, path) && path[0] == p && path.last() == end;
    let longer = seq![a] + path;
    assert forall|i: int| 0 <= i < longer.len() - 1 implies #[trigger] is_step(
        grid,
        size,
        longer,
        i,
    ) by {
        if i > 0 {
            assert(is_step(grid, size, path, i - 1));
        }
    }
    assert(is_walk(grid, size, longer));
    assert(longer[0] == a && longer.last() == end);
}

/// A walk that starts in a closed set stays in it.
pub proof fn lemma_walk_stays(
    cells: Set<usize>,
    grid: Seq<Colour>,
    size: usize,
    path: Seq<usize>,
    upto: int,
)
    requires
        closed(cells, grid, size),
        grid.len() == cell_count(size),
        is_walk(grid, size, path),
        cells.contains(path[0]),
        0 <= upto < path.len(),
    ensures
        cells.contains(path[upto]),
    decreases upto,
{
    if upto > 0 {
        lemma_walk_stays(cells, grid, size, path, upto - 1);
        assert(is_step(grid, size, path, upto - 1));
        lemma_adjacent_symmetric(size, path[upto - 1], path[upto]);
    }
}

/// A closed set holds the region of each of its cells.
pub proof fn lemma_closed_holds_region(
    cells: Set<usize>,
    grid: Seq<Colour>,
    size: usize,
    start: usize,
)
    requires
        closed(cells, grid, size),
        grid.len() == cell_count(size),
        cells.contains(start),
    ensures
        region(grid, size, start).subset_of(cells),
{
    assert forall|cell: usize| region(grid, size, start).contains(cell) implies cells.contains(
        cell,
    ) by {
        let path = choose|path: Seq<usize>|
            #![trigger is_walk(grid, size, path)]
            is_walk(grid, size, path) && path[0] == start && path.last() == cell;
        lemma_walk_stays(cells, grid, size, path, path.len() - 1);
    }
}

/// A region is closed, lies on the board, and all its cells but perhaps the
/// first are empty.
pub proof fn lemma_region_closed(grid: Seq<Colour>, size: usize, start: usize)
    requires
        grid.len() == cell_count(size),
        start < grid.len(),
    ensures
        closed(region(grid, size, start), grid, size),
        region(grid, size, start).contains(start),
        forall|cell: usize| #[trigger]
            region(grid, size, start).contains(cell) ==> cell < grid.len() && (cell == start
                || grid[cell as int] == Colour::Empty),
{
    lemma_reaches_self(grid, size, start);
    let all = region(grid, size, start);
    assert forall|p: usize, a: usize|
        #![trigger all.contains(p), adjacent(size, p, a)]
        all.contains(p) && adjacent(size, p, a) && a < grid.len() && grid[a as int]
            == Colour::Empty implies all.contains(a) by {
        lemma_reaches_step(grid, size, start, p, a);
    }
    assert forall|cell: usize| #[trigger] all.contains(cell) implies cell < grid.len() && (cell
        == start || grid[cell as int] == Colour::Empty) by {
        let path = choose|path: Seq<usize>|
            #![trigger is_walk(grid, size, path)]
            is_walk(grid, size, path) && path[0] == start && path.last() == cell;
        if path.len() > 1 {
            let i = path.len() - 2;
            assert(is_step(grid, size, path, i));
            lemma_adjacent_symmetric(size, path[i], path[i + 1]);
        }
    }
}

/// From an empty cell, every cell of its region leads back to it.
pub proof fn lemma_reaches_back(grid: Seq<Colour>, size: usize, start: usize, cell: usize)
    requires
        grid.len() == cell_count(size),
        start < grid.len(),
        grid[start as int] == Colour::Empty,
        reaches(grid, size, start, cell),
    ensures
        reaches(grid, size, cell, start),
{
    let back = Set::new(
        |c: usize| c < grid.len() && grid[c as int] == Colour::Empty && reaches(grid, size, c, start),
    );
    lemma_reaches_self(grid, size, start);
    assert forall|p: usize, a: usize|
        #![trigger back.contains(p), adjacent(size, p, a)]
        back.contains(p) && adjacent(size, p, a) && a < grid.len() && grid[a as int]
            == Colour::Empty implies back.contains(a) by {
        lemma_adjacent_symmetric(size, p, a);
        lemma_reaches_from(grid, size, a, p, start);
    }
    lemma_closed_holds_region(back, grid, size, start);
    assert(region(grid, size, start).contains(cell));
}

/// The cells of an empty cell's region all have that same region.
pub proof fn lemma_region_shared(grid: Seq<Colour>, size: usize, start: usize, cell: usize)
    requires
        grid.len() == cell_count(size),
        start < grid.len(),
        grid[start as int] == Colour::Empty,
        reaches(grid, size, start, cell),
    ensures
        region(grid, size, cell) == region(grid, size, start),
{
    lemma_region_closed(grid, size, start);
    assert(region(grid, size, start).contains(cell));
    lemma_region_closed(grid, size, cell);
    lemma_closed_holds_region(region(grid, size, start), grid, size, cell);
    lemma_reaches_back(grid, size, start, cell);
    assert(region(grid, size, cell).contains(start));
    lemma_closed_holds_region(region(grid, size, cell), grid, size, start);
    assert(region(grid, size, cell) =~= region(grid, size, start));
}

/// The region of `start`, found by flood fill.
pub fn flood(grid: &[Colour], size: usize, start: usize) -> (points: HashSet<usize>)
    requires
        grid@.len() == cell_count(size),
        start < grid@.len(),
    ensures
        points@ == region(grid@, size, start),
        points@.finite(),
{
    assert(grid.len() <= usize::MAX);
    let mut points: HashSet<usize> = HashSet::new();
    let mut queue: Vec<usize> = Vec::new();
    queue.push(start);
    let ghost board = Set::<usize>::range(0, grid@.len() as usize);
    proof {
        lemma_reaches_self(grid@, size, start);
        vstd::set_lib::range_set_properties::<usize>(0, grid@.len() as usize);
        assert(queue@[0] == start);
    }
    while queue.len() > 0
        invariant
            grid@.len() == cell_count(size) <= usize::MAX,
            start < grid@.len(),
            board == Set::<usize>::range(0, grid@.len() as usize),
            board.finite(),
            board.len() == grid@.len(),
            points@.finite(),
            points@.subset_of(board),
            forall|k: int|
                0 <= k < queue.len() ==> reaches(grid@, size, start, #[trigger] queue@[k])
                    && queue@[k] < grid@.len(),
            forall|p: usize| #[trigger] points@.contains(p) ==> reaches(grid@, size, start, p),
            points@.contains(start) || queue@.contains(start),
            forall|p: usize, a: usize|
                #![trigger points@.contains(p), adjacent(size, p, a)]
                points@.contains(p) && adjacent(size, p, a) && a < grid@.len() && grid@[a as int]
                    == Colour::Empty ==> points@.contains(a) || queue@.contains(a),
        decreases grid@.len() - points@.len(), queue.len(),
    {
        proof {
            vstd::set_lib::lemma_len_subset(points@, board);
        }
        let ghost waiting = queue@;
        let position: usize = queue.pop().unwrap();
        assert(waiting =~= queue@.push(position));
        assert forall|c: usize| waiting.contains(c) implies queue@.contains(c) || c == position by {
            let k = choose|k: int| 0 <= k < waiting.len() && waiting[k] == c;
            if k < queue@.len() {
                assert(queue@[k] == c);
            }
        }
        if !points.contains(&position) {
            let around = neighbour_cells(size, position);
            let ghost kept = queue@;
            let mut j: usize = 0;
            while j < around.len()
                invariant
                    j <= around.len(),
                    around@ == neighbours(size, position),
                    position < grid@.len() == cell_count(size) <= usize::MAX,
                    reaches(grid@, size, start, position),
                    queue@.len() >= kept.len(),
                    forall|k: int| 0 <= k < kept.len() ==> queue@[k] == kept[k],
                    forall|k: int|
                        0 <= k < queue.len() ==> reaches(grid@, size, start, #[trigger] queue@[k])
                            && queue@[k] < grid@.len(),
                    forall|m: int|
                        0 <= m < j && grid@[(#[trigger] around@[m]) as int] == Colour::Empty
                            ==> queue@.contains(around@[m]),
                decreases around.len() - j,
            {
                let near: usize = around[j];
                proof {
                    assert(around@.contains(near));
                    lemma_neighbours_adjacent(size, position, near);
                    lemma_adjacent_symmetric(size, position, near);
                }
                let ghost before = queue@;
                if grid[near] == Colour::Empty {
                    proof {
                        lemma_reaches_step(grid@, size, start, position, near);
                    }
                    queue.push(near);
                    assert(queue@[before.len() as int] == near);
                }
                proof {
                    assert forall|m: int|
                        0 <= m < j + 1 && grid@[(#[trigger] around@[m]) as int]
                            == Colour::Empty implies queue@.contains(around@[m]) by {
                        if m < j {
                            let k = choose|k: int|
                                0 <= k < before.len() && before[k] == around@[m];
                            assert(queue@[k] == around@[m]);
                        }
                    }
                }
                j += 1;
            }
            let ghost found = points@;
            points.insert(position);
            proof {
                assert(points@.subset_of(board));
                assert(found.len() + 1 == points@.len());
                vstd::set_lib::lemma_len_subset(points@, board);
                assert forall|c: usize| kept.contains(c) implies queue@.contains(c) by {
                    let k = choose|k: int| 0 <= k < kept.len() && kept[k] == c;
                    assert(queue@[k] == c);
                }
                assert forall|p: usize, a: usize|
                    #![trigger points@.contains(p), adjacent(size, p, a)]
                    points@.contains(p) && adjacent(size, p, a) && a < grid@.len()
                        && grid@[a as int] == Colour::Empty implies points@.contains(a)
                    || queue@.contains(a) by {
                    if p == position {
                        lemma_neighbours_adjacent(size, position, a);
                        let m = choose|m: int| 0 <= m < around@.len() && around@[m] == a;
                        assert(grid@[around@[m] as int] == Colour::Empty);
                    } else {
                        assert(found.contains(p));
                        assert(found.contains(a) || waiting.contains(a));
                    }
                }
            }
        }
    }
    proof {
        assert(!queue@.contains(start));
        assert(closed(points@, grid@, size));
        lemma_closed_holds_region(points@, grid@, size, start);
        assert(points@ =~= region(grid@, size, start));
    }
    points
}

/// Whether the cells at `points` touch a cell that shows `colour`.
pub fn touches_colour(points: &HashSet<usize>, grid: &[Colour], size: usize, colour: Colour) -> (found:
    bool)
    requires
        grid@.len() == cell_count(size),
        forall|p: usize| #[trigger] points@.contains(p) ==> p < grid@.len(),
    ensures
        found == borders(points@, grid@, size, colour),
{
    assert(grid.len() <= usize::MAX);
    let pairs = touching_pairs(points, size);
    let mut i: usize = 0;
    while i < pairs.len()
        invariant
            i <= pairs.len(),
            grid@.len() == cell_count(size),
            forall|k: int|
                0 <= k < pairs.len() ==> points@.contains((#[trigger] pairs[k]).0) && adjacent(
                    size,
                    pairs[k].0,
                    pairs[k].1,
                ),
            forall|k: int| 0 <= k < i ==> grid@[(#[trigger] pairs[k]).1 as int] != colour,
        decreases pairs.len() - i,
    {
        proof {
            lemma_adjacent_symmetric(size, pairs[i as int].0, pairs[i as int].1);
        }
        if grid[pairs[i].1] == colour {
            return true;
        }
        i += 1;
    }
    proof {
        if borders(points@, grid@, size, colour) {
            let (p, a) = choose|p: usize, a: usize|
                #![trigger points@.contains(p), adjacent(size, p, a)]
                points@.contains(p) && adjacent(size, p, a) && a < grid@.len() && grid@[a as int]
                    == colour;
            assert(pairs@.contains((p, a)));
            let k = choose|k: int| 0 <= k < pairs@.len() && pairs@[k] == (p, a);
            assert(pairs[k].1 == a);
        }
    }
    false
}

} // verus!
