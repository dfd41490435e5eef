//! Groups that carry a count of their liberties, for a board of the full
//! tournament size.

use vstd::prelude::*;
use vstd::std_specs::cmp::PartialEqSpecImpl;
use std::collections::HashSet;
use crate::colour::Colour;
use crate::coordinate::Coordinate;
use crate::geometry::{cell_count, has_liberty, lemma_has_liberty_counts, liberties};
use crate::group_state::{absorb, cells_of, copy_cells, lemma_union_grows, liberty_cells, union_of};
use crate::new_board::BOARD_SIZE;

verus! {

broadcast use vstd::std_specs::hash::group_hash_axioms;

/// What a counted group is, apart from how it is stored.
pub struct NewGroupView {
    pub id: usize,
    /// The liberties that the group was last counted to have.
    pub liberties: usize,
    pub colour: Colour,
    pub points: Set<usize>,
}

/// A group of stones with the number of liberties that it was last counted
/// to have. Two groups are the same group when their ids agree.
#[derive(Debug)]
pub struct NewGroup {
    pub id: usize,
    pub liberties: usize,
    pub colour: Colour,
    pub points: HashSet<usize>,
}

impl View for NewGroup {
    type V = NewGroupView;

    open spec fn view(&self) -> NewGroupView {
        NewGroupView {
            id: self.id,
            liberties: self.liberties,
            colour: self.colour,
            points: self.points@,
        }
    }
}

impl NewGroup {
    /// Whether every stone of the group stands on the board.
    pub open spec fn fits(&self) -> bool {
        forall|p: usize| #[trigger] self.points@.contains(p) ==> p < cell_count(BOARD_SIZE)
    }

    /// A group of one stone. Its liberties are put at four until they are
    /// counted.
    pub fn new(id: usize, colour: Colour, position: Coordinate) -> (group: Self)
        requires
            position.representable(),
        ensures
            group@ == (NewGroupView {
                id,
                liberties: 4,
                colour,
                points: set![position.index() as usize],
            }),
    {
        let mut points: HashSet<usize> = HashSet::new();
        points.insert(position.get_index());
        assert(points@ =~= set![position.index() as usize]);

        NewGroup { id, liberties: 4, colour, points }
    }

    /// Counts the liberties of the group on the board that `grid` shows and
    /// keeps the count. A group without stones keeps the count it had.
    pub fn calculate_liberties(&mut self, grid: &Vec<Colour>)
        requires
            grid.len() == cell_count(BOARD_SIZE),
            old(self).fits(),
        ensures
            final(self)@.id == old(self)@.id,
            final(self)@.colour == old(self)@.colour,
            final(self)@.points == old(self)@.points,
            final(self)@.liberties == (if old(self)@.points.len() == 0 {
                old(self)@.liberties as int
            } else {
                liberties(old(self)@.points, grid@, BOARD_SIZE).len() as int
            }),
    {
        if self.points.len() > 0 {
            let found = liberty_cells(&self.points, grid, BOARD_SIZE);
            self.liberties = found.len();
        }
    }

    /// Whether the group has at least one liberty on the board that `grid`
    /// shows.
    pub fn check_liberties(&self, grid: &Vec<Colour>) -> (alive: bool)
        requires
            grid.len() == cell_count(BOARD_SIZE),
            self.fits(),
        ensures
            alive == has_liberty(self@.points, grid@, BOARD_SIZE),
    {
        let found = liberty_cells(&self.points, grid, BOARD_SIZE);
        proof {
            lemma_has_liberty_counts(self.points@, grid@, BOARD_SIZE);
        }
        return found.len() > 0;
    }

    pub fn get_id(&self) -> (id: &usize)
        ensures
            *id == self@.id,
    {
        &self.id
    }

    pub fn get_liberties(&self) -> (liberties: &usize)
        ensures
            *liberties == self@.liberties,
    {
        &self.liberties
    }

    pub fn get_points(&self) -> (points: &HashSet<usize>)
        ensures
            points@ == self@.points,
    {
        &self.points
    }

    /// The group's stones as coordinates in index form, each once.
    pub fn get_positions(&self) -> (positions: Vec<Coordinate>)
        ensures
            positions.len() == self@.points.len(),
            forall|i: int|
                0 <= i < positions.len() ==> #[trigger] positions[i] is Index
                    && self@.points.contains(positions[i]->Index_0),
            forall|i: int, j: int|
                0 <= i < j < positions.len() ==> positions[i]->Index_0 != positions[j]->Index_0,
            forall|p: usize|
                self@.points.contains(p) ==> exists|i: int|
                    0 <= i < positions.len() && #[trigger] positions[i] == Coordinate::Index(p),
    {
        let cells = cells_of(&self.points);
        let mut out: Vec<Coordinate> = Vec::new();
        let mut i: usize = 0;
        while i < cells.len()
            invariant
                i <= cells.len(),
                out.len() == i,
                forall|k: int| 0 <= k < i ==> #[trigger] out[k] == Coordinate::Index(cells@[k]),
            decreases cells.len() - i,
        {
            out.push(Coordinate::Index(cells[i]));
            i += 1;
        }
        proof {
            assert forall|i: int| 0 <= i < out.len() implies #[trigger] out[i] is Index
                && self@.points.contains(out[i]->Index_0) by {
                assert(cells@.to_set().contains(cells@[i]));
            }
            assert forall|p: usize| self@.points.contains(p) implies exists|i: int|
                0 <= i < out.len() && #[trigger] out[i] == Coordinate::Index(p) by {
                assert(cells@.to_set().contains(p));
                let k = choose|k: int| 0 <= k < cells@.len() && cells@[k] == p;
                assert(out[k] == Coordinate::Index(p));
            }
        }
        out
    }

    pub fn get_colour(&self) -> (colour: Colour)
        ensures
            colour == self@.colour,
    {
        match self.colour {
            Colour::Black => Colour::Black,
            Colour::Empty => Colour::Empty,
            Colour::White => Colour::White,
        }
    }

    /// Takes one liberty off the count.
    pub fn decrease_liberties(&mut self)
        requires
            old(self)@.liberties > 0,
        ensures
            final(self)@ == (NewGroupView {
                liberties: (old(self)@.liberties - 1) as usize,
                ..old(self)@
            }),
    {
        self.liberties -= 1;
    }

    /// Takes one liberty off the count and returns the new count.
    pub fn decrease_and_get_liberties(&mut self) -> (left: usize)
        requires
            old(self)@.liberties > 0,
        ensures
            left == old(self)@.liberties - 1,
            final(self)@ == (NewGroupView { liberties: left, ..old(self)@ }),
    {
        self.liberties -= 1;
        self.liberties
    }

    /// Whether the group has colour `colour` and a stone on `coordinate`.
    pub fn contains(&self, coordinate: &Coordinate, colour: &Colour) -> (found: bool)
        requires
            coordinate.representable(),
        ensures
            found == (self@.points.contains(coordinate.index() as usize) && self@.colour
                == *colour),
    {
        let cell: usize = coordinate.get_index();
        return self.points.contains(&cell) && self.colour == *colour;
    }

    /// The group that holds every stone of `groups`, under a new id and with
    /// the colour of the first of them. Its liberties are put at four until
    /// they are counted.
    pub fn merge_groups(id: usize, groups: &Vec<&NewGroup>) -> (merged: NewGroup)
        requires
            groups.len() > 0,
        ensures
            merged@ == (NewGroupView {
                id,
                liberties: 4,
                colour: groups[0]@.colour,
                points: union_of(Seq::new(groups.len() as nat, |i: int| groups[i]@.points)),
            }),
    {
        let ghost sets = Seq::new(groups.len() as nat, |i: int| groups[i]@.points);
        let mut total_points: HashSet<usize> = HashSet::new();
        let mut i: usize = 0;
        assert(total_points@ =~= union_of(sets.take(0)));
        while i < groups.len()
            invariant
                i <= groups.len(),
                sets == Seq::new(groups.len() as nat, |i: int| groups[i]@.points),
                total_points@ == union_of(sets.take(i as int)),
            decreases groups.len() - i,
        {
            absorb(&mut total_points, &groups[i].points);
            proof {
                lemma_union_grows(sets, i as int);
            }
            i += 1;
        }
        assert(sets.take(groups.len() as int) =~= sets);
        let colour = groups[0].get_colour();

        let new_group = NewGroup { id, colour, liberties: 4, points: total_points };
        new_group
    }
}

impl Clone for NewGroup {
    fn clone(&self) -> (copy: Self)
        ensures
            copy@ == self@,
    {
        NewGroup {
            id: self.id,
            liberties: self.liberties,
            colour: self.colour,
            points: copy_cells(&self.points),
        }
    }
}

impl PartialEq for NewGroup {
    fn eq(&self, other: &Self) -> (same: bool) {
        return self.id == other.id
    }
}

impl Eq for NewGroup {}

impl std::hash::Hash for NewGroup {
    fn hash<H: std::hash::Hasher>(&self, state: &mut H) {
        self.id.hash(state);
        self.points.len().hash(state);
    }
}

impl PartialEqSpecImpl for NewGroup {
    open spec fn obeys_eq_spec() -> bool {
        true
    }

    open spec fn eq_spec(&self, other: &Self) -> bool {
        self.id == other.id
    }
}

} // verus!
