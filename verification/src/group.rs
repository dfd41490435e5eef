//! Groups for the counting board: stones of one colour with the number of
//! liberties that the board last gave them.

use vstd::prelude::*;
use vstd::std_specs::cmp::PartialEqSpecImpl;
use std::collections::HashSet;
use crate::board::{Board, BOARD_SIZE};
use crate::colour::Colour;
use crate::coordinate::Coordinate;
use crate::geometry::{cell_count, liberties, neighbour_cells, neighbours};
use crate::group_state::{absorb, cells_of, copy_cells, lemma_union_grows, liberty_cells, union_of};

verus! {

broadcast use vstd::std_specs::hash::group_hash_axioms;

/// What a group of the counting board is, apart from how it is stored.
pub struct GroupShape {
    pub colour: Colour,
    pub liberties: usize,
    pub points: Set<usize>,
}

/// A group of stones. Two groups are equal when colour, count of liberties
/// and stones all agree.
#[derive(Debug)]
pub struct Group {
    pub colour: Colour,
    pub liberties: usize,
    pub points: HashSet<usize>,
}

impl View for Group {
    type V = GroupShape;

    open spec fn view(&self) -> GroupShape {
        GroupShape { colour: self.colour, liberties: self.liberties, points: self.points@ }
    }
}

/// The views of a list of groups.
pub open spec fn shapes_of(groups: Seq<Group>) -> Seq<GroupShape> {
    Seq::new(groups.len(), |i: int| groups[i]@)
}

/// The first group of `groups` that has colour `colour` and a stone on
/// `cell`: its place in the list, from place `from` on.
pub open spec fn holder_from(groups: Seq<GroupShape>, cell: usize, colour: Colour, from: int)
    -> Option<int>
    decreases groups.len() - from,
{
    if from < 0 || from >= groups.len() {
        None
    } else if groups[from].colour == colour && groups[from].points.contains(cell) {
        Some(from)
    } else {
        holder_from(groups, cell, colour, from + 1)
    }
}

/// The first group of `groups` that has colour `colour` and a stone on
/// `cell`.
pub open spec fn holder(groups: Seq<GroupShape>, cell: usize, colour: Colour) -> Option<int> {
    holder_from(groups, cell, colour, 0)
}

/// What `holder_from` finds is the first fitting group at or after `from`.
pub proof fn lemma_holder_from(groups: Seq<GroupShape>, cell: usize, colour: Colour, from: int)
    requires
        0 <= from,
    ensures
        match holder_from(groups, cell, colour, from) {
            Some(i) => from <= i < groups.len() && groups[i].colour == colour
                && groups[i].points.contains(cell) && forall|j: int|
                from <= j < i ==> !((#[trigger] groups[j]).colour == colour
                    && groups[j].points.contains(cell)),
            None => forall|j: int|
                from <= j < groups.len() ==> !((#[trigger] groups[j]).colour == colour
                    && groups[j].points.contains(cell)),
        },
    decreases groups.len() - from,
{
    if from < groups.len() && !(groups[from].colour == colour && groups[from].points.contains(
        cell,
    )) {
        lemma_holder_from(groups, cell, colour, from + 1);
    }
}

/// The groups that a stone's group is to be joined with: the group itself,
/// then, for each of the first `upto` cells of `around` that shows its
/// colour and is held by a group of that colour, that group.
pub open spec fn mergeable(
    me: GroupShape,
    grid: Seq<Colour>,
    groups: Seq<GroupShape>,
    around: Seq<usize>,
    upto: int,
) -> Seq<GroupShape>
    decreases upto,
{
    if upto <= 0 {
        seq![me]
    } else {
        let rest = mergeable(me, grid, groups, around, upto - 1);
        let cell = around[upto - 1];
        if grid[cell as int] == me.colour && holder(groups, cell, me.colour) is Some {
            rest.push(groups[holder(groups, cell, me.colour)->Some_0])
        } else {
            rest
        }
    }
}

/// The group that holds every stone of `groups`, with the colour of the
/// first of them and no liberties counted yet.
pub open spec fn merged(groups: Seq<GroupShape>) -> GroupShape {
    GroupShape {
        colour: groups[0].colour,
        liberties: 0,
        points: union_of(Seq::new(groups.len(), |i: int| groups[i].points)),
    }
}

/// Whether two sets hold the same cells.
pub fn same_cells(one: &HashSet<usize>, other: &HashSet<usize>) -> (same: bool)
    ensures
        same == (one@ == other@),
{
    let mine = cells_of(one);
    let theirs = cells_of(other);
    if one.len() != other.len() {
        assert(one@.len() != other@.len());
        assert(!(one@ =~= other@));
        return false;
    }
    let mut i: usize = 0;
    while i < mine.len()
        invariant
            i <= mine.len(),
            mine@.to_set() == one@,
            forall|k: int| 0 <= k < i ==> other@.contains(#[trigger] mine@[k]),
        decreases mine.len() - i,
    {
        if !other.contains(&mine[i]) {
            assert(mine@.to_set().contains(mine@[i as int]));
            assert(!(one@ =~= other@));
            return false;
        }
        i += 1;
    }
    proof {
        assert(mine@.to_set().finite());
        assert(theirs@.to_set().finite());
        assert forall|c: usize| one@.contains(c) implies other@.contains(c) by {
            assert(mine@.to_set().contains(c));
            let k = choose|k: int| 0 <= k < mine@.len() && mine@[k] == c;
            assert(other@.contains(mine@[k]));
        }
        assert(one@.subset_of(other@));
        vstd::set_lib::lemma_subset_equality(one@, other@);
    }
    true
}

impl Group {
    /// Whether every stone of the group stands on the board.
    pub open spec fn fits(&self) -> bool {
        forall|p: usize| #[trigger] self.points@.contains(p) ==> p < cell_count(BOARD_SIZE)
    }

    /// A group of one stone. Its liberties are put at four until they are
    /// counted.
    pub fn new(colour: Colour, position: Coordinate) -> (group: Group)
        requires
            position.representable(),
        ensures
            group@ == (GroupShape {
                colour,
                liberties: 4,
                points: set![position.index() as usize],
            }),
    {
        let mut points: HashSet<usize> = HashSet::new();
        points.insert(position.get_index());
        assert(points@ =~= set![position.index() as usize]);
        Group { colour, liberties: 4, points }
    }

    /// Counts the liberties of the group on the board that `board_grid`
    /// shows and keeps the count.
    pub fn calculate_liberties(&mut self, board_grid: &Vec<Colour>)
        requires
            board_grid.len() == cell_count(BOARD_SIZE),
            old(self).fits(),
        ensures
            final(self)@ == (GroupShape {
                liberties: liberties(old(self)@.points, board_grid@, BOARD_SIZE).len() as usize,
                ..old(self)@
            }),
    {
        let found = liberty_cells(&self.points, board_grid, BOARD_SIZE);
        self.liberties = found.len();
    }

    /// The group's stones as coordinates in index form, each once.
    pub fn get_positions(&self) -> (positions: Vec<Coordinate>)
        ensures
            positions.len() == self@.points.len(),
            forall|i: int|
                0 <= i < positions.len() ==> #[trigger] positions[i] is Index
                    && self@.points.contains(positions[i]->Index_0),
            forall|i: int, j: int|
                0 <= i < j < positions.len() ==> positions[i]->Index_0 != positions[j]->Index_0,
            forall|p: usize|
                self@.points.contains(p) ==> exists|i: int|
                    0 <= i < positions.len() && #[trigger] positions[i] == Coordinate::Index(p),
    {
        let cells = cells_of(&self.points);
        let mut out: Vec<Coordinate> = Vec::new();
        let mut i: usize = 0;
        while i < cells.len()
            invariant
                i <= cells.len(),
                out.len() == i,
                forall|k: int| 0 <= k < i ==> #[trigger] out[k] == Coordinate::Index(cells@[k]),
            decreases cells.len() - i,
        {
            out.push(Coordinate::Index(cells[i]));
            i += 1;
        }
        proof {
            assert forall|i: int| 0 <= i < out.len() implies #[trigger] out[i] is Index
                && self@.points.contains(out[i]->Index_0) by {
                assert(cells@.to_set().contains(cells@[i]));
            }
            assert forall|p: usize| self@.points.contains(p) implies exists|i: int|
                0 <= i < out.len() && #[trigger] out[i] == Coordinate::Index(p) by {
                assert(cells@.to_set().contains(p));
                let k = choose|k: int| 0 <= k < cells@.len() && cells@[k] == p;
                assert(out[k] == Coordinate::Index(p));
            }
        }
        out
    }

    pub fn get_points(&self) -> (points: &HashSet<usize>)
        ensures
            points@ == self@.points,
    {
        &self.points
    }

    pub fn get_colour(&self) -> (colour: Colour)
        ensures
            colour == self@.colour,
    {
        self.colour
    }

    pub fn get_liberties(&self) -> (liberties: &usize)
        ensures
            *liberties == self@.liberties,
    {
        &self.liberties
    }

    /// Takes one liberty off the count.
    pub fn decrease_liberties(&mut self)
        requires
            old(self)@.liberties > 0,
        ensures
            final(self)@ == (GroupShape {
                liberties: (old(self)@.liberties - 1) as usize,
                ..old(self)@
            }),
    {
        self.liberties -= 1;
    }

    /// Takes one liberty off the count and returns the new count.
    pub fn decrease_and_get_liberties(&mut self) -> (left: usize)
        requires
            old(self)@.liberties > 0,
        ensures
            left == old(self)@.liberties - 1,
            final(self)@ == (GroupShape { liberties: left, ..old(self)@ }),
    {
        self.liberties -= 1;
        self.liberties
    }

    /// Whether the group has colour `colour` and a stone on `position`.
    pub fn contains(&self, position: Coordinate, colour: Colour) -> (found: bool)
        requires
            position.representable(),
        ensures
            found == (self@.colour == colour && self@.points.contains(position.index() as usize)),
    {
        if self.colour == colour {
            let cell: usize = position.get_index();
            if self.points.contains(&cell) {
                return true;
            }
        }
        false
    }

    /// The group that holds every stone of `groups`, with the colour of the
    /// first of them and no liberties counted yet.
    pub fn merge_groups(groups: &Vec<Group>) -> (joined: Group)
        requires
            groups.len() > 0,
        ensures
            joined@ == merged(shapes_of(groups@)),
    {
        let colour = groups[0].colour;
        let ghost sets = Seq::new(groups.len() as nat, |i: int| groups[i]@.points);
        let mut points: HashSet<usize> = HashSet::new();
        let mut i: usize = 0;
        assert(points@ =~= union_of(sets.take(0)));
        while i < groups.len()
            invariant
                i <= groups.len(),
                sets == Seq::new(groups.len() as nat, |i: int| groups[i]@.points),
                points@ == union_of(sets.take(i as int)),
            decreases groups.len() - i,
        {
            absorb(&mut points, &groups[i].points);
            proof {
                lemma_union_grows(sets, i as int);
            }
            i += 1;
        }
        proof {
            assert(sets.take(groups.len() as int) =~= sets);
            assert(sets =~= Seq::new(
                shapes_of(groups@).len(),
                |i: int| shapes_of(groups@)[i].points,
            ));
        }
        Group { colour, liberties: 0, points }
    }

    /// The groups that this group is to be joined with on `board`: the
    /// group itself, then the groups of its colour that hold a cell next to
    /// one of its stones. Which stone is taken is not said; for a group of
    /// one stone there is no choice.
    pub fn find_mergeable_groups(&self, board: &Board) -> (found: Vec<Group>)
        requires
            self.fits(),
            self@.points.len() > 0,
            board.grid.len() == cell_count(BOARD_SIZE),
        ensures
            exists|location: usize| #[trigger]
                self@.points.contains(location) && shapes_of(found@) == mergeable(
                    self@,
                    board.grid@,
                    shapes_of(board.groups@),
                    neighbours(BOARD_SIZE, location),
                    neighbours(BOARD_SIZE, location).len() as int,
                ),
    {
        let cells = cells_of(&self.points);
        let location: usize = cells[0];
        assert(cells@.to_set().contains(location));
        let positions = neighbour_cells(BOARD_SIZE, location);
        let mut groups: Vec<Group> = Vec::new();
        groups.push(self.clone());
        let ghost shapes = shapes_of(board.groups@);
        assert(shapes_of(groups@) =~= mergeable(self@, board.grid@, shapes, positions@, 0));
        let mut k: usize = 0;
        while k < positions.len()
            invariant
                k <= positions.len(),
                positions@ == neighbours(BOARD_SIZE, location),
                location < cell_count(BOARD_SIZE) == board.grid.len(),
                shapes == shapes_of(board.groups@),
                shapes_of(groups@) == mergeable(self@, board.grid@, shapes, positions@, k as int),
            decreases positions.len() - k,
        {
            let position: usize = positions[k];
            let ghost before = groups@;
            proof {
                assert(positions@.contains(position));
                crate::geometry::lemma_neighbours_adjacent(BOARD_SIZE, location, position);
                crate::geometry::lemma_adjacent_symmetric(BOARD_SIZE, location, position);
            }
            if board.grid[position] == self.colour {
                if let Some(index) = board.find_group_index(position, self.colour) {
                    groups.push(board.groups[index].clone());
                    assert(shapes_of(groups@) =~= shapes_of(before).push(shapes[index as int]));
                }
            }
            k += 1;
        }
        groups
    }
}

impl Clone for Group {
    fn clone(&self) -> (copy: Self)
        ensures
            copy@ == self@,
    {
        Group { colour: self.colour, liberties: self.liberties, points: copy_cells(&self.points) }
    }
}

impl PartialEq for Group {
    fn eq(&self, other: &Self) -> (same: bool) {
        self.colour == other.colour && self.liberties == other.liberties && same_cells(
            &self.points,
            &other.points,
        )
    }
}

impl Eq for Group {}

impl PartialEqSpecImpl for Group {
    open spec fn obeys_eq_spec() -> bool {
        true
    }

    open spec fn eq_spec(&self, other: &Self) -> bool {
        self@ == other@
    }
}

} // verus!
