//! Groups: sets of stones of one colour that live and die together.

use vstd::prelude::*;
use vstd::std_specs::hash::*;
use vstd::std_specs::iter::IteratorSpec;
use vstd::std_specs::cmp::PartialEqSpecImpl;
use std::collections::HashSet;
use crate::colour::Colour;
use crate::coordinate::Coordinate;
use crate::geometry::{adjacent, cell_count, has_liberty, is_liberty, lemma_has_liberty_counts,
    lemma_neighbours_adjacent, liberties, neighbour_cells, neighbours};

verus! {

broadcast use vstd::std_specs::hash::group_hash_axioms;

/// What a group is, apart from how it is stored.
pub struct GroupView {
    pub id: usize,
    pub colour: Colour,
    /// The cells that the group's stones stand on.
    pub points: Set<usize>,
}

/// A group of stones. Two groups are the same group when their ids agree.
#[derive(Debug)]
pub struct GroupState {
    pub id: usize,
    pub colour: Colour,
    pub points: HashSet<usize>,
}

impl View for GroupState {
    type V = GroupView;

    open spec fn view(&self) -> GroupView {
        GroupView { id: self.id, colour: self.colour, points: self.points@ }
    }
}

/// The cells that lie in at least one of `sets`.
pub open spec fn union_of(sets: Seq<Set<usize>>) -> Set<usize> {
    Set::new(|p: usize| exists|i: int| 0 <= i < sets.len() && #[trigger] sets[i].contains(p))
}

/// The union of one set more is the union so far together with that set.
pub proof fn lemma_union_grows(sets: Seq<Set<usize>>, i: int)
    requires
        0 <= i < sets.len(),
    ensures
        union_of(sets.take(i + 1)) == union_of(sets.take(i)).union(sets[i]),
{
    let before = sets.take(i);
    let after = sets.take(i + 1);
    assert forall|p: usize| union_of(after).contains(p) <==> union_of(before).union(
        sets[i],
    ).contains(p) by {
        if union_of(after).contains(p) {
            let w = choose|w: int| 0 <= w < after.len() && #[trigger] after[w].contains(p);
            if w < i {
                assert(before[w].contains(p));
            }
        }
        if union_of(before).contains(p) {
            let w = choose|w: int| 0 <= w < before.len() && #[trigger] before[w].contains(p);
            assert(after[w].contains(p));
        }
        if sets[i].contains(p) {
            assert(after[i].contains(p));
        }
    }
    assert(union_of(after) =~= union_of(before).union(sets[i]));
}

/// The cells of `set`, each once, in the order in which the set hands them
/// out.
pub fn cells_of(set: &HashSet<usize>) -> (cells: Vec<usize>)
    ensures
        cells@.no_duplicates(),
        cells@.to_set() == set@,
        cells@.len() == set@.len(),
{
    let mut out: Vec<usize> = Vec::new();
    for p in it: set.iter()
        invariant
            out@.len() == it.index(),
            forall|j: int| 0 <= j < out@.len() ==> out@[j] == *it.seq()[j],
            it.seq() == spec_hash_keys_iter(set).remaining(),
    {
        out.push(*p);
    }
    proof {
        let rem = spec_hash_keys_iter(set).remaining();
        assert(out@ =~= rem.unref());
    }
    out
}

/// A set with the same cells as `set`.
pub fn copy_cells(set: &HashSet<usize>) -> (copy: HashSet<usize>)
    ensures
        copy@ == set@,
{
    let cells = cells_of(set);
    let mut out: HashSet<usize> = HashSet::new();
    let mut i: usize = 0;
    while i < cells.len()
        invariant
            i <= cells.len(),
            forall|p: usize| out@.contains(p) <==> exists|j: int| 0 <= j < i && cells@[j] == p,
        decreases cells.len() - i,
    {
        out.insert(cells[i]);
        i += 1;
    }
    assert(out@ =~= cells@.to_set());
    out
}

/// Puts every cell of `more` into `cells`.
pub fn absorb(cells: &mut HashSet<usize>, more: &HashSet<usize>)
    ensures
        final(cells)@ == old(cells)@.union(more@),
{
    let list = cells_of(more);
    let ghost before = cells@;
    let mut j: usize = 0;
    while j < list.len()
        invariant
            j <= list.len(),
            forall|p: usize|
                #![trigger cells@.contains(p)]
                cells@.contains(p) <==> before.contains(p) || exists|k: int|
                    0 <= k < j && list@[k] == p,
        decreases list.len() - j,
    {
        cells.insert(list[j]);
        j += 1;
    }
    proof {
        assert forall|p: usize| cells@.contains(p) <==> before.union(more@).contains(p) by {
            if cells@.contains(p) && !before.contains(p) {
                let k = choose|k: int| 0 <= k < list@.len() && list@[k] == p;
                assert(list@.to_set().contains(list@[k]));
            }
            if more@.contains(p) {
                assert(list@.to_set().contains(p));
            }
        }
        assert(cells@ =~= before.union(more@));
    }
}

/// Every pair of a cell of `points` and a cell that touches it.
pub fn touching_pairs(points: &HashSet<usize>, size: usize) -> (pairs: Vec<(usize, usize)>)
    requires
        cell_count(size) <= usize::MAX,
        forall|p: usize| #[trigger] points@.contains(p) ==> p < cell_count(size),
    ensures
        forall|i: int|
            0 <= i < pairs.len() ==> points@.contains((#[trigger] pairs[i]).0) && adjacent(
                size,
                pairs[i].0,
                pairs[i].1,
            ),
        forall|p: usize, a: usize|
            #![trigger points@.contains(p), adjacent(size, p, a)]
            points@.contains(p) && adjacent(size, p, a) ==> pairs@.contains((p, a)),
{
    let cells = cells_of(points);
    let mut pairs: Vec<(usize, usize)> = Vec::new();
    let mut i: usize = 0;
    while i < cells.len()
        invariant
            i <= cells.len(),
            cell_count(size) <= usize::MAX,
            cells@.to_set() == points@,
            forall|p: usize| #[trigger] points@.contains(p) ==> p < cell_count(size),
            forall|k: int|
                0 <= k < pairs.len() ==> points@.contains((#[trigger] pairs[k]).0) && adjacent(
                    size,
                    pairs[k].0,
                    pairs[k].1,
                ),
            forall|w: int, a: usize|
                #![trigger adjacent(size, cells@[w], a)]
                0 <= w < i && adjacent(size, cells@[w], a) ==> pairs@.contains((cells@[w], a)),
        decreases cells.len() - i,
    {
        let stone: usize = cells[i];
        assert(cells@.to_set().contains(stone));
        let around = neighbour_cells(size, stone);
        let ghost before = pairs@;
        let mut j: usize = 0;
        while j < around.len()
            invariant
                j <= around.len(),
                around@ == neighbours(size, stone),
                stone < cell_count(size) <= usize::MAX,
                points@.contains(stone),
                pairs@.len() == before.len() + j,
                forall|k: int| 0 <= k < before.len() ==> pairs@[k] == before[k],
                forall|m: int| 0 <= m < j ==> pairs@[before.len() + m] == (stone, around@[m]),
            decreases around.len() - j,
        {
            pairs.push((stone, around[j]));
            j += 1;
        }
        proof {
            assert forall|k: int| 0 <= k < pairs.len() implies points@.contains(
                (#[trigger] pairs[k]).0,
            ) && adjacent(size, pairs[k].0, pairs[k].1) by {
                if k >= before.len() {
                    let m = k - before.len();
                    assert(pairs@[before.len() + m] == (stone, around@[m]));
                    assert(around@.contains(around@[m]));
                    lemma_neighbours_adjacent(size, stone, around@[m]);
                } else {
                    assert(pairs@[k] == before[k]);
                }
            }
            assert forall|w: int, a: usize|
                #![trigger adjacent(size, cells@[w], a)]
                0 <= w < i + 1 && adjacent(size, cells@[w], a) implies pairs@.contains(
                (cells@[w], a),
            ) by {
                if w < i {
                    assert(before.contains((cells@[w], a)));
                    let k = choose|k: int| 0 <= k < before.len() && before[k] == (cells@[w], a);
                    assert(pairs@[k] == (cells@[w], a));
                } else {
                    lemma_neighbours_adjacent(size, stone, a);
                    let m = choose|m: int| 0 <= m < around@.len() && around@[m] == a;
                    assert(pairs@[before.len() + m] == (stone, a));
                }
            }
        }
        i += 1;
    }
    proof {
        assert forall|p: usize, a: usize|
            #![trigger points@.contains(p), adjacent(size, p, a)]
            points@.contains(p) && adjacent(size, p, a) implies pairs@.contains((p, a)) by {
            assert(cells@.to_set().contains(p));
            let w = choose|w: int| 0 <= w < cells@.len() && cells@[w] == p;
            assert(adjacent(size, cells@[w], a));
        }
    }
    pairs
}

/// The liberties of the stones at `points` on the board that `grid` shows.
pub fn liberty_cells(points: &HashSet<usize>, grid: &Vec<Colour>, board_size: usize) -> (found:
    HashSet<usize>)
    requires
        grid.len() == cell_count(board_size),
        forall|p: usize| #[trigger] points@.contains(p) ==> p < grid.len(),
    ensures
        found@ == liberties(points@, grid@, board_size),
{
    let pairs = touching_pairs(points, board_size);
    let mut found: HashSet<usize> = HashSet::new();
    let mut i: usize = 0;
    while i < pairs.len()
        invariant
            i <= pairs.len(),
            grid.len() == cell_count(board_size),
            forall|k: int|
                0 <= k < pairs.len() ==> points@.contains((#[trigger] pairs[k]).0) && adjacent(
                    board_size,
                    pairs[k].0,
                    pairs[k].1,
                ),
            forall|c: usize|
                #![trigger found@.contains(c)]
                found@.contains(c) <==> exists|k: int|
                    0 <= k < i && (#[trigger] pairs[k]).1 == c && grid@[c as int] == Colour::Empty,
        decreases pairs.len() - i,
    {
        let near: usize = pairs[i].1;
        proof {
            crate::geometry::lemma_adjacent_symmetric(board_size, pairs[i as int].0, near);
        }
        if grid[near] == Colour::Empty {
            found.insert(near);
        }
        i += 1;
    }
    proof {
        assert forall|c: usize| found@.contains(c) <==> is_liberty(
            points@,
            grid@,
            board_size,
            c,
        ) by {
            if found@.contains(c) {
                let k = choose|k: int|
                    0 <= k < pairs.len() && (#[trigger] pairs[k]).1 == c && grid@[c as int]
                        == Colour::Empty;
                crate::geometry::lemma_adjacent_symmetric(board_size, pairs[k].0, c);
                assert(points@.contains(pairs[k].0) && adjacent(board_size, pairs[k].0, c));
            }
            if is_liberty(points@, grid@, board_size, c) {
                let p = choose|p: usize|
                    #[trigger] points@.contains(p) && adjacent(board_size, p, c);
                assert(pairs@.contains((p, c)));
                let k = choose|k: int| 0 <= k < pairs@.len() && pairs@[k] == (p, c);
                assert(pairs[k].1 == c);
            }
        }
        assert(found@ =~= liberties(points@, grid@, board_size));
    }
    found
}

impl GroupState {
    /// Whether every stone of the group stands on the board that `grid`
    /// shows.
    pub open spec fn fits(&self, grid_len: int) -> bool {
        forall|p: usize| #[trigger] self.points@.contains(p) ==> p < grid_len
    }

    /// A group of one stone.
    pub fn new(id: usize, colour: Colour, position: Coordinate) -> (group: Self)
        requires
            position.representable(),
        ensures
            group@ == (GroupView { id, colour, points: set![position.index() as usize] }),
    {
        let mut points: HashSet<usize> = HashSet::new();
        points.insert(position.get_index());
        assert(points@ =~= set![position.index() as usize]);
        GroupState { id, colour, points }
    }

    /// The group that holds every stone of `groups`, under a new id and with
    /// the colour of the first of them.
    pub fn merge_groups(id: usize, groups: &Vec<&GroupState>) -> (merged: GroupState)
        requires
            groups.len() > 0,
        ensures
            merged@.id == id,
            merged@.colour == groups[0]@.colour,
            merged@.points == union_of(Seq::new(groups.len() as nat, |i: int| groups[i]@.points)),
    {
        let colour = groups[0].colour;
        let ghost sets = Seq::new(groups.len() as nat, |i: int| groups[i]@.points);
        let mut points: HashSet<usize> = HashSet::new();
        let mut i: usize = 0;
        assert(points@ =~= union_of(sets.take(0)));
        while i < groups.len()
            invariant
                i <= groups.len(),
                sets == Seq::new(groups.len() as nat, |i: int| groups[i]@.points),
                points@ == union_of(sets.take(i as int)),
            decreases groups.len() - i,
        {
            absorb(&mut points, &groups[i].points);
            proof {
                lemma_union_grows(sets, i as int);
            }
            i += 1;
        }
        assert(sets.take(groups.len() as int) =~= sets);
        GroupState { id, colour, points }
    }

    /// The cells of all of `groups` together.
    pub fn combine_groups(groups: &Vec<GroupState>) -> (points: HashSet<usize>)
        ensures
            points@ == union_of(Seq::new(groups.len() as nat, |i: int| groups[i]@.points)),
    {
        let ghost sets = Seq::new(groups.len() as nat, |i: int| groups[i]@.points);
        let mut points: HashSet<usize> = HashSet::new();
        let mut i: usize = 0;
        assert(points@ =~= union_of(sets.take(0)));
        while i < groups.len()
            invariant
                i <= groups.len(),
                sets == Seq::new(groups.len() as nat, |i: int| groups[i]@.points),
                points@ == union_of(sets.take(i as int)),
            decreases groups.len() - i,
        {
            absorb(&mut points, &groups[i].points);
            proof {
                lemma_union_grows(sets, i as int);
            }
            i += 1;
        }
        assert(sets.take(groups.len() as int) =~= sets);
        points
    }

    /// Whether the group has at least one liberty on the board that `grid`
    /// shows.
    pub fn check_liberties(&self, grid: &Vec<Colour>, board_size: usize) -> (alive: bool)
        requires
            grid.len() == cell_count(board_size),
            self.fits(grid.len() as int),
        ensures
            alive == has_liberty(self.points@, grid@, board_size),
    {
        let found = liberty_cells(&self.points, grid, board_size);
        proof {
            lemma_has_liberty_counts(self.points@, grid@, board_size);
        }
        return found.len() > 0;
    }

    /// The number of liberties of the group on the board that `grid` shows.
    pub fn calculate_liberties(&self, grid: &Vec<Colour>, board_size: usize) -> (count: usize)
        requires
            grid.len() == cell_count(board_size),
            self.fits(grid.len() as int),
        ensures
            count == liberties(self.points@, grid@, board_size).len(),
    {
        let found = liberty_cells(&self.points, grid, board_size);
        return found.len()
    }

    /// Whether a stone of the group stands on `position`.
    pub fn _contains(&self, position: Coordinate) -> (found: bool)
        requires
            position.representable(),
        ensures
            found == self@.points.contains(position.index() as usize),
    {
        let cell: usize = position.get_index();
        self.points.contains(&cell)
    }

    pub fn get_points(&self) -> (points: &HashSet<usize>)
        ensures
            points@ == self@.points,
    {
        &self.points
    }

    /// The group's stones as coordinates in index form, each once.
    pub fn get_positions(&self) -> (positions: Vec<Coordinate>)
        ensures
            positions.len() == self@.points.len(),
            forall|i: int|
                0 <= i < positions.len() ==> #[trigger] positions[i] is Index
                    && self@.points.contains(positions[i]->Index_0),
            forall|i: int, j: int|
                0 <= i < j < positions.len() ==> positions[i]->Index_0 != positions[j]->Index_0,
            forall|p: usize|
                self@.points.contains(p) ==> exists|i: int|
                    0 <= i < positions.len() && #[trigger] positions[i] == Coordinate::Index(p),
    {
        let cells = cells_of(&self.points);
        let mut out: Vec<Coordinate> = Vec::new();
        let mut i: usize = 0;
        while i < cells.len()
            invariant
                i <= cells.len(),
                out.len() == i,
                forall|k: int| 0 <= k < i ==> #[trigger] out[k] == Coordinate::Index(cells@[k]),
            decreases cells.len() - i,
        {
            out.push(Coordinate::Index(cells[i]));
            i += 1;
        }
        proof {
            assert forall|i: int| 0 <= i < out.len() implies #[trigger] out[i] is Index
                && self@.points.contains(out[i]->Index_0) by {
                assert(cells@.to_set().contains(cells@[i]));
            }
            assert forall|p: usize| self@.points.contains(p) implies exists|i: int|
                0 <= i < out.len() && #[trigger] out[i] == Coordinate::Index(p) by {
                assert(cells@.to_set().contains(p));
                let k = choose|k: int| 0 <= k < cells@.len() && cells@[k] == p;
                assert(out[k] == Coordinate::Index(p));
            }
        }
        out
    }

    pub fn get_colour(&self) -> (colour: Colour)
        ensures
            colour == self@.colour,
    {
        self.colour
    }

    pub fn _get_id(&self) -> (id: usize)
        ensures
            id == self@.id,
    {
        self.id
    }

    /// A region of empty cells, dressed as a group of colour `Empty`.
    pub fn from_empty_points(points: HashSet<usize>) -> (group: Self)
        ensures
            group@ == (GroupView { id: 777, colour: Colour::Empty, points: points@ }),
    {
        GroupState { id: 777, colour: Colour::Empty, points }
    }
}

impl Clone for GroupState {
    fn clone(&self) -> (copy: Self)
        ensures
            copy@ == self@,
    {
        GroupState { id: self.id, colour: self.colour, points: copy_cells(&self.points) }
    }
}

impl PartialEq for GroupState {
    fn eq(&self, other: &Self) -> (same: bool) {
        return self.id == other.id
    }
}

impl Eq for GroupState {}

impl std::hash::Hash for GroupState {
    fn hash<H: std::hash::Hasher>(&self, state: &mut H) {
        self.id.hash(state);
        self.points.len().hash(state);
        let cells = cells_of(&self.points);
        let mut sum: usize = 0;
        let mut i: usize = 0;
        while i < cells.len()
            invariant
                i <= cells.len(),
            decreases cells.len() - i,
        {
            sum = sum.wrapping_add(cells[i]);
            i += 1;
        }
        sum.hash(state);
    }
}

impl PartialEqSpecImpl for GroupState {
    open spec fn obeys_eq_spec() -> bool {
        true
    }

    open spec fn eq_spec(&self, other: &Self) -> bool {
        self.id == other.id
    }
}

} // verus!
