//! Territory: which empty areas belong to whom, and when the board is
//! settled.

use vstd::prelude::*;
use std::collections::HashSet;
use rayon::iter::{IntoParallelRefIterator, ParallelIterator};
use crate::board_state::BoardState;
use crate::colour::Colour;
use crate::coordinate::Coordinate;
use crate::geometry::cell_count;
use crate::group_state::{absorb, GroupState, GroupView};
use crate::region::{borders, flood, lemma_region_closed, lemma_region_shared, reaches, region,
    touches_colour};

verus! {

broadcast use vstd::std_specs::hash::group_hash_axioms;

/// Whether `points` is the region of some empty cell: a maximal connected
/// area of empty cells.
pub open spec fn is_empty_region(grid: Seq<Colour>, size: usize, points: Set<usize>) -> bool {
    exists|seed: usize|
        seed < grid.len() && grid[seed as int] == Colour::Empty && points == #[trigger] region(
            grid,
            size,
            seed,
        )
}

/// Whether the empty cell `cell` is territory of `colour`: the empty area
/// around it touches stones of `colour` and none of the other colour.
pub open spec fn is_territory(grid: Seq<Colour>, size: usize, colour: Colour, cell: usize)
    -> bool {
    &&& cell < grid.len()
    &&& grid[cell as int] == Colour::Empty
    &&& borders(region(grid, size, cell), grid, size, colour)
    &&& !borders(region(grid, size, cell), grid, size, colour.opponent())
}

/// The territory of `colour`.
pub open spec fn territory_of(grid: Seq<Colour>, size: usize, colour: Colour) -> Set<usize> {
    Set::new(|cell: usize| is_territory(grid, size, colour, cell))
}

/// Whether the cells at `points` touch both a black and a white stone.
pub open spec fn contested(points: Set<usize>, grid: Seq<Colour>, size: usize) -> bool {
    borders(points, grid, size, Colour::Black) && borders(points, grid, size, Colour::White)
}

/// The number of cells of `grid` that show `colour`.
pub open spec fn count_of(grid: Seq<Colour>, colour: Colour) -> nat
    decreases grid.len(),
{
    if grid.len() == 0 {
        0
    } else {
        count_of(grid.drop_last(), colour) + if grid.last() == colour {
            1nat
        } else {
            0nat
        }
    }
}

/// A count of cells is at most the number of cells.
pub proof fn lemma_count_bound(grid: Seq<Colour>, colour: Colour)
    ensures
        count_of(grid, colour) <= grid.len(),
    decreases grid.len(),
{
    if grid.len() > 0 {
        lemma_count_bound(grid.drop_last(), colour);
    }
}

/// Whether all important points are played: at least five stones stand on
/// the board, and no empty area touches both colours.
pub open spec fn all_important_points_played(grid: Seq<Colour>, size: usize) -> bool {
    &&& count_of(grid, Colour::Black) + count_of(grid, Colour::White) >= 5
    &&& forall|cell: usize|
        cell < grid.len() && grid[cell as int] == Colour::Empty ==> !contested(
            #[trigger] region(grid, size, cell),
            grid,
            size,
        )
}

/// What `empty_regions` promises of its result: each entry is a maximal
/// empty area, no two entries share a cell, and every empty cell is in one.
#[verifier::opaque]
pub open spec fn partitions_empty(regions: Seq<GroupState>, grid: Seq<Colour>, size: usize)
    -> bool {
    &&& forall|i: int|
        0 <= i < regions.len() ==> is_empty_region(grid, size, (#[trigger] regions[i])@.points)
            && regions[i]@.colour == Colour::Empty && regions[i]@.id == 777
    &&& forall|i: int, j: int|
        0 <= i < j < regions.len() ==> regions[i]@.points.disjoint(regions[j]@.points)
    &&& forall|cell: usize|
        cell < grid.len() && grid[cell as int] == Colour::Empty ==> exists|i: int|
            0 <= i < regions.len() && #[trigger] regions[i]@.points.contains(cell)
}

/// Each entry of a partition is a maximal empty area.
pub proof fn lemma_partition_entry(
    regions: Seq<GroupState>,
    grid: Seq<Colour>,
    size: usize,
    i: int,
)
    requires
        partitions_empty(regions, grid, size),
        0 <= i < regions.len(),
    ensures
        is_empty_region(grid, size, regions[i]@.points),
        regions[i]@.colour == Colour::Empty,
        regions[i]@.id == 777,
{
    reveal(partitions_empty);
}

/// Two entries of a partition share no cell.
pub proof fn lemma_partition_apart(
    regions: Seq<GroupState>,
    grid: Seq<Colour>,
    size: usize,
    i: int,
    j: int,
)
    requires
        partitions_empty(regions, grid, size),
        0 <= i < regions.len(),
        0 <= j < regions.len(),
        i != j,
    ensures
        regions[i]@.points.disjoint(regions[j]@.points),
{
    reveal(partitions_empty);
    if i < j {
        assert(regions[i]@.points.disjoint(regions[j]@.points));
    } else {
        assert(regions[j]@.points.disjoint(regions[i]@.points));
    }
}

/// Every empty cell lies in an entry of a partition, and that entry is the
/// cell's region.
pub proof fn lemma_partition_covers(
    regions: Seq<GroupState>,
    grid: Seq<Colour>,
    size: usize,
    cell: usize,
) -> (i: int)
    requires
        grid.len() == cell_count(size),
        partitions_empty(regions, grid, size),
        cell < grid.len(),
        grid[cell as int] == Colour::Empty,
    ensures
        0 <= i < regions.len(),
        regions[i]@.points.contains(cell),
        regions[i]@.points == region(grid, size, cell),
{
    reveal(partitions_empty);
    let i = choose|i: int| 0 <= i < regions.len() && #[trigger] regions[i]@.points.contains(cell);
    lemma_empty_region_cell(grid, size, regions[i]@.points, cell);
    i
}

/// A cell of a maximal empty area is empty, on the board, and has that area
/// as its region.
pub proof fn lemma_empty_region_cell(
    grid: Seq<Colour>,
    size: usize,
    points: Set<usize>,
    cell: usize,
)
    requires
        grid.len() == cell_count(size),
        is_empty_region(grid, size, points),
        points.contains(cell),
    ensures
        cell < grid.len(),
        grid[cell as int] == Colour::Empty,
        region(grid, size, cell) == points,
{
    let seed = choose|seed: usize|
        seed < grid.len() && grid[seed as int] == Colour::Empty && points == #[trigger] region(
            grid,
            size,
            seed,
        );
    lemma_region_closed(grid, size, seed);
    lemma_region_shared(grid, size, seed, cell);
}

/// The maximal empty areas of the board that `grid` shows, each once, in the
/// order of their first cells.
pub fn empty_regions(grid: &[Colour], size: usize) -> (regions: Vec<GroupState>)
    requires
        grid@.len() == cell_count(size),
    ensures
        partitions_empty(regions@, grid@, size),
{
    let mut regions: Vec<GroupState> = Vec::new();
    let mut visited: HashSet<usize> = HashSet::new();
    let mut cell: usize = 0;
    while cell < grid.len()
        invariant
            cell <= grid@.len(),
            grid@.len() == cell_count(size),
            forall|i: int|
                0 <= i < regions.len() ==> is_empty_region(
                    grid@,
                    size,
                    (#[trigger] regions[i])@.points,
                ) && regions[i]@.colour == Colour::Empty && regions[i]@.id == 777,
            forall|i: int, j: int|
                0 <= i < j < regions.len() ==> regions[i]@.points.disjoint(regions[j]@.points),
            forall|x: usize|
                #![trigger visited@.contains(x)]
                visited@.contains(x) <==> exists|i: int|
                    0 <= i < regions.len() && #[trigger] regions[i]@.points.contains(x),
            forall|x: usize|
                x < cell && grid@[x as int] == Colour::Empty ==> #[trigger] visited@.contains(x),
        decreases grid.len() - cell,
    {
        if grid[cell] == Colour::Empty && !visited.contains(&cell) {
            let points = flood(grid, size, cell);
            let ghost before = regions@;
            let ghost seen = visited@;
            proof {
                lemma_region_closed(grid@, size, cell);
                assert forall|i: int| 0 <= i < before.len() implies before[i]@.points.disjoint(
                    points@,
                ) by {
                    if exists|x: usize| before[i]@.points.contains(x) && points@.contains(x) {
                        let x = choose|x: usize|
                            before[i]@.points.contains(x) && points@.contains(x);
                        lemma_empty_region_cell(grid@, size, before[i]@.points, x);
                        lemma_region_shared(grid@, size, cell, x);
                        assert(before[i]@.points.contains(cell));
                        assert(seen.contains(cell));
                    }
                }
            }
            absorb(&mut visited, &points);
            regions.push(GroupState::from_empty_points(points));
            proof {
                let last = before.len() as int;
                assert(forall|i: int| 0 <= i < before.len() ==> regions[i] == before[i]);
                assert(regions[last]@.points == region(grid@, size, cell));
                assert forall|x: usize|
                    #![trigger visited@.contains(x)]
                    visited@.contains(x) <==> exists|i: int|
                        0 <= i < regions.len() && #[trigger] regions[i]@.points.contains(x) by {
                    if visited@.contains(x) {
                        if seen.contains(x) {
                            let i = choose|i: int|
                                0 <= i < before.len() && #[trigger] before[i]@.points.contains(x);
                            assert(regions[i]@.points.contains(x));
                        } else {
                            assert(regions[last]@.points.contains(x));
                        }
                    }
                    if exists|i: int|
                        0 <= i < regions.len() && #[trigger] regions[i]@.points.contains(x) {
                        let i = choose|i: int|
                            0 <= i < regions.len() && #[trigger] regions[i]@.points.contains(x);
                        if i < last {
                            assert(before[i]@.points.contains(x));
                        }
                    }
                }
            }
        }
        cell += 1;
    }
    proof {
        reveal(partitions_empty);
        assert forall|x: usize|
            x < grid@.len() && grid@[x as int] == Colour::Empty implies exists|i: int|
            0 <= i < regions.len() && #[trigger] regions[i]@.points.contains(x) by {
            assert(visited@.contains(x));
        }
    }
    regions
}

/// Whether the empty area `area` touches at most one colour of stones.
pub fn one_sided(area: &GroupState, grid: &Vec<Colour>, size: usize) -> (settled: bool)
    requires
        grid.len() == cell_count(size),
        area.fits(grid.len() as int),
    ensures
        settled == !contested(area@.points, grid@, size),
{
    let black = touches_colour(&area.points, grid.as_slice(), size, Colour::Black);
    let white = touches_colour(&area.points, grid.as_slice(), size, Colour::White);
    !(black && white)
}

/// `ParallelIterator::all` of rayon over the areas: whether `one_sided`
/// holds of every one of them. The parallel iterator may stop early on a
/// counter-example; the answer is that of testing them all.
#[verifier::external_body]
fn all_one_sided(areas: &Vec<GroupState>, grid: &Vec<Colour>, size: usize) -> (all: bool)
    requires
        grid.len() == cell_count(size),
        forall|i: int| 0 <= i < areas.len() ==> (#[trigger] areas[i]).fits(grid.len() as int),
    ensures
        all == (forall|i: int|
            0 <= i < areas.len() ==> !contested((#[trigger] areas[i])@.points, grid@, size)),
{
    areas.par_iter().all(|area| one_sided(area, grid, size))
}

/// Whether the cells at `points` touch `colour` and not its opponent.
pub open spec fn held_by(points: Set<usize>, grid: Seq<Colour>, size: usize, colour: Colour)
    -> bool {
    borders(points, grid, size, colour) && !borders(points, grid, size, colour.opponent())
}

/// Whether `cell` lies in one of the first `upto` areas that `colour` holds.
pub open spec fn in_held_area(
    areas: Seq<GroupState>,
    grid: Seq<Colour>,
    size: usize,
    colour: Colour,
    upto: int,
    cell: usize,
) -> bool {
    exists|k: int|
        0 <= k < upto && #[trigger] areas[k]@.points.contains(cell) && held_by(
            areas[k]@.points,
            grid,
            size,
            colour,
        )
}

/// The cells of those of `areas` that touch `colour` and not its opponent.
fn owned_cells(areas: &Vec<GroupState>, grid: &[Colour], size: usize, colour: Colour) -> (owned:
    HashSet<usize>)
    requires
        grid@.len() == cell_count(size),
        partitions_empty(areas@, grid@, size),
    ensures
        owned@ == territory_of(grid@, size, colour),
{
    let mut owned: HashSet<usize> = HashSet::new();
    let mut i: usize = 0;
    while i < areas.len()
        invariant
            i <= areas.len(),
            grid@.len() == cell_count(size),
            partitions_empty(areas@, grid@, size),
            forall|x: usize|
                #![trigger owned@.contains(x)]
                owned@.contains(x) <==> in_held_area(areas@, grid@, size, colour, i as int, x),
        decreases areas.len() - i,
    {
        let area = &areas[i];
        proof {
            lemma_partition_entry(areas@, grid@, size, i as int);
            assert forall|p: usize| #[trigger] area.points@.contains(p) implies p
                < grid@.len() by {
                lemma_empty_region_cell(grid@, size, area@.points, p);
            }
        }
        let ghost before = owned@;
        let mine = touches_colour(&area.points, grid, size, colour);
        let theirs = touches_colour(&area.points, grid, size, colour.swap_turn());
        if mine && !theirs {
            absorb(&mut owned, &area.points);
        }
        proof {
            assert forall|x: usize|
                #![trigger owned@.contains(x)]
                owned@.contains(x) <==> in_held_area(
                    areas@,
                    grid@,
                    size,
                    colour,
                    i + 1,
                    x,
                ) by {
                if before.contains(x) {
                    let k = choose|k: int|
                        0 <= k < i && #[trigger] areas@[k]@.points.contains(x) && held_by(
                            areas@[k]@.points,
                            grid@,
                            size,
                            colour,
                        );
                    assert(areas@[k]@.points.contains(x));
                }
                if owned@.contains(x) && !before.contains(x) {
                    assert(areas@[i as int]@.points.contains(x));
                }
                if in_held_area(areas@, grid@, size, colour, i + 1, x) {
                    let k = choose|k: int|
                        0 <= k < i + 1 && #[trigger] areas@[k]@.points.contains(x) && held_by(
                            areas@[k]@.points,
                            grid@,
                            size,
                            colour,
                        );
                    if k < i {
                        assert(in_held_area(areas@, grid@, size, colour, i as int, x));
                    }
                }
            }
        }
        i += 1;
    }
    proof {
        assert forall|x: usize| owned@.contains(x) <==> is_territory(grid@, size, colour, x) by {
            if owned@.contains(x) {
                let k = choose|k: int|
                    0 <= k < areas.len() && #[trigger] areas@[k]@.points.contains(x) && held_by(
                        areas@[k]@.points,
                        grid@,
                        size,
                        colour,
                    );
                lemma_partition_entry(areas@, grid@, size, k);
                lemma_empty_region_cell(grid@, size, areas@[k]@.points, x);
            }
            if is_territory(grid@, size, colour, x) {
                let k = lemma_partition_covers(areas@, grid@, size, x);
                assert(areas@[k]@.points.contains(x));
            }
        }
        assert(owned@ =~= territory_of(grid@, size, colour));
    }
    owned
}

impl BoardState {
    /// The number of empty cells that `colour` surrounds: those whose empty
    /// area touches stones of `colour` and none of the other colour.
    pub fn get_surrounded_area(&self, grid: &Vec<Colour>, colour: Colour) -> (area: usize)
        requires
            grid.len() == cell_count(self.size),
        ensures
            area == territory_of(grid@, self.size, colour).len(),
    {
        let areas = empty_regions(grid.as_slice(), self.size);
        let owned = owned_cells(&areas, grid.as_slice(), self.size, colour);
        owned.len()
    }

    /// The surrounded areas of Black and of White, from one pass over the
    /// empty areas of the board.
    pub fn get_colour_territory(&self, grid: &Vec<Colour>) -> (areas: (usize, usize))
        requires
            grid.len() == cell_count(self.size),
        ensures
            areas.0 == territory_of(grid@, self.size, Colour::Black).len(),
            areas.1 == territory_of(grid@, self.size, Colour::White).len(),
    {
        let areas = empty_regions(grid.as_slice(), self.size);
        let black = owned_cells(&areas, grid.as_slice(), self.size, Colour::Black);
        let white = owned_cells(&areas, grid.as_slice(), self.size, Colour::White);
        (black.len(), white.len())
    }

    /// The maximal empty areas that touch no stone of the colour opposed to
    /// `colour`, each once, each as a group of colour `Empty` with the id
    /// 777. Every cell of such an area is empty, so a full board has none.
    pub fn get_territory(&self, grid: &[Colour], colour: Colour) -> (areas: Vec<GroupState>)
        requires
            grid@.len() == cell_count(self.size),
        ensures
            forall|i: int|
                0 <= i < areas.len() ==> is_empty_region(
                    grid@,
                    self.size,
                    (#[trigger] areas[i])@.points,
                ) && !borders(areas[i]@.points, grid@, self.size, colour.opponent())
                    && areas[i]@.colour == Colour::Empty && areas[i]@.id == 777,
            forall|i: int, cell: usize|
                0 <= i < areas.len() && #[trigger] areas[i]@.points.contains(cell) ==> cell
                    < grid@.len() && grid@[cell as int] == Colour::Empty,
            forall|i: int, j: int|
                0 <= i < j < areas.len() ==> areas[i]@.points.disjoint(areas[j]@.points),
            forall|cell: usize|
                cell < grid@.len() && grid@[cell as int] == Colour::Empty && !borders(
                    region(grid@, self.size, cell),
                    grid@,
                    self.size,
                    colour.opponent(),
                ) ==> exists|i: int| 0 <= i < areas.len() && #[trigger] areas[i]@.points.contains(cell),
    {
        let size: usize = self.size;
        let mut empty_groups = empty_regions(grid, size);
        let ghost all = empty_groups@;
        let mut surrounded_territory: Vec<GroupState> = Vec::new();
        let ghost mut origin: Seq<int> = Seq::empty();
        while empty_groups.len() > 0
            invariant
                grid@.len() == cell_count(size),
                partitions_empty(all, grid@, size),
                empty_groups@ == all.take(empty_groups.len() as int),
                empty_groups.len() <= all.len(),
                origin.len() == surrounded_territory.len(),
                forall|k: int|
                    0 <= k < origin.len() ==> empty_groups.len() <= #[trigger] origin[k] < all.len()
                        && surrounded_territory@[k] == all[origin[k]] && !borders(
                        all[origin[k]]@.points,
                        grid@,
                        size,
                        colour.opponent(),
                    ),
                forall|k: int, m: int|
                    0 <= k < m < origin.len() ==> #[trigger] origin[k] > #[trigger] origin[m],
                forall|w: int|
                    empty_groups.len() <= w < all.len() && !borders(
                        (#[trigger] all[w])@.points,
                        grid@,
                        size,
                        colour.opponent(),
                    ) ==> origin.contains(w),
            decreases empty_groups.len(),
        {
            let ghost here = empty_groups.len() - 1;
            let ghost before = origin;
            let ghost listed = surrounded_territory@;
            assert(empty_groups@[here] == all[here]);
            let empty_group = empty_groups.pop().unwrap();
            proof {
                assert(empty_groups@ =~= all.take(empty_groups.len() as int));
                lemma_partition_entry(all, grid@, size, here);
                assert forall|p: usize| #[trigger] empty_group.points@.contains(p) implies p
                    < grid@.len() by {
                    lemma_empty_region_cell(grid@, size, empty_group@.points, p);
                }
            }
            if !touches_colour(&empty_group.points, grid, size, colour.swap_turn()) {
                surrounded_territory.push(empty_group);
                proof {
                    origin = origin.push(here);
                    assert(origin[before.len() as int] == here);
                    assert(forall|k: int| 0 <= k < before.len() ==> origin[k] == before[k]);
                    assert(forall|k: int|
                        0 <= k < before.len() ==> surrounded_territory@[k] == listed[k]);
                }
            }
            proof {
                assert forall|w: int|
                    empty_groups.len() <= w < all.len() && !borders(
                        (#[trigger] all[w])@.points,
                        grid@,
                        size,
                        colour.opponent(),
                    ) implies origin.contains(w) by {
                    if w > here {
                        assert(before.contains(w));
                        let k = choose|k: int| 0 <= k < before.len() && before[k] == w;
                        assert(origin[k] == w);
                    } else {
                        assert(origin[before.len() as int] == w);
                    }
                }
            }
        }
        proof {
            assert forall|i: int| 0 <= i < surrounded_territory.len() implies is_empty_region(
                grid@,
                size,
                (#[trigger] surrounded_territory[i])@.points,
            ) && !borders(surrounded_territory[i]@.points, grid@, size, colour.opponent())
                && surrounded_territory[i]@.colour == Colour::Empty && surrounded_territory[i]@.id
                == 777 by {
                lemma_partition_entry(all, grid@, size, origin[i]);
            }
            assert forall|i: int, cell: usize|
                0 <= i < surrounded_territory.len()
                    && #[trigger] surrounded_territory[i]@.points.contains(cell) implies cell
                < grid@.len() && grid@[cell as int] == Colour::Empty by {
                lemma_partition_entry(all, grid@, size, origin[i]);
                lemma_empty_region_cell(grid@, size, all[origin[i]]@.points, cell);
            }
            assert forall|i: int, j: int|
                0 <= i < j < surrounded_territory.len() implies surrounded_territory[i]@.points.disjoint(
                surrounded_territory[j]@.points,
            ) by {
                assert(origin[i] > origin[j]);
                lemma_partition_apart(all, grid@, size, origin[i], origin[j]);
            }
            assert forall|cell: usize|
                cell < grid@.len() && grid@[cell as int] == Colour::Empty && !borders(
                    region(grid@, size, cell),
                    grid@,
                    size,
                    colour.opponent(),
                ) implies exists|i: int|
                0 <= i < surrounded_territory.len()
                    && #[trigger] surrounded_territory[i]@.points.contains(cell) by {
                let w = lemma_partition_covers(all, grid@, size, cell);
                assert(!borders(all[w]@.points, grid@, size, colour.opponent()));
                assert(origin.contains(w));
                let k = choose|k: int| 0 <= k < origin.len() && origin[k] == w;
                assert(surrounded_territory[k]@.points.contains(cell));
            }
        }
        surrounded_territory
    }

    /// Whether every important point is played: at least five stones stand
    /// on the board and no empty area touches both colours. Once this holds
    /// the game can be ended.
    pub fn check_all_important_points_played(&self) -> (played: bool)
        requires
            self.shape_wf(),
        ensures
            played == all_important_points_played(self@.grid(), self.size),
    {
        let grid = self.get_grid();
        let mut non_empty_count: usize = 0;
        let mut index: usize = 0;
        while index < grid.len()
            invariant
                index <= grid.len(),
                non_empty_count == count_of(grid@.take(index as int), Colour::Black) + count_of(
                    grid@.take(index as int),
                    Colour::White,
                ),
                non_empty_count <= index,
            decreases grid.len() - index,
        {
            proof {
                assert(grid@.take(index + 1).drop_last() =~= grid@.take(index as int));
                assert(grid@.take(index + 1).last() == grid@[index as int]);
            }
            match grid[index] {
                Colour::Empty => {},
                _ => {
                    non_empty_count += 1;
                },
            }
            index += 1;
        }
        assert(grid@.take(grid.len() as int) =~= grid@);

        if non_empty_count < 5 {
            return false;
        }
        let empty_points = empty_regions(grid.as_slice(), self.size);
        proof {
            assert forall|i: int| 0 <= i < empty_points.len() implies (
            #[trigger] empty_points[i]).fits(grid.len() as int) by {
                lemma_partition_entry(empty_points@, grid@, self.size, i);
                assert forall|p: usize| #[trigger]
                    empty_points[i].points@.contains(p) implies p < grid.len() by {
                    lemma_empty_region_cell(grid@, self.size, empty_points[i]@.points, p);
                }
            }
        }
        let is_all_played = all_one_sided(&empty_points, &grid, self.size);
        proof {
            if is_all_played {
                assert forall|cell: usize|
                    cell < grid@.len() && grid@[cell as int] == Colour::Empty implies !contested(
                    #[trigger] region(grid@, self.size, cell),
                    grid@,
                    self.size,
                ) by {
                    let i = lemma_partition_covers(empty_points@, grid@, self.size, cell);
                    assert(!contested(empty_points[i]@.points, grid@, self.size));
                }
            } else {
                let i = choose|i: int|
                    0 <= i < empty_points.len() && contested(
                        (#[trigger] empty_points[i])@.points,
                        grid@,
                        self.size,
                    );
                lemma_partition_entry(empty_points@, grid@, self.size, i);
                let seed = choose|seed: usize|
                    seed < grid@.len() && grid@[seed as int] == Colour::Empty
                        && empty_points[i]@.points == #[trigger] region(grid@, self.size, seed);
                assert(contested(region(grid@, self.size, seed), grid@, self.size));
            }
        }
        is_all_played
    }

    /// The empty area around `coordinate`, found by flood fill: every cell
    /// that a walk from `coordinate` over empty cells reaches. The cell of
    /// `coordinate` itself is part of it whatever it holds.
    pub fn create_empty_group(&self, grid: &[Colour], coordinate: Coordinate) -> (area: GroupState)
        requires
            grid@.len() == cell_count(self.size),
            coordinate.on_board(self.size as int),
        ensures
            area@ == (GroupView {
                id: 777,
                colour: Colour::Empty,
                points: region(grid@, self.size, coordinate.index_on(self.size as int) as usize),
            }),
    {
        assert(grid.len() <= usize::MAX);
        let start: usize = coordinate.cell_on(self.size).unwrap();
        let points = flood(grid, self.size, start);
        GroupState::from_empty_points(points)
    }
}

} // verus!
