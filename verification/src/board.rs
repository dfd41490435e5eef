//! The counting board: a board of the full tournament size that is changed
//! in place and counts the stones that each side has taken. A stone takes
//! one liberty off the count of a neighbouring group for every side on
//! which it touches the group, and a group whose count comes to nothing
//! leaves the board. Moves are not checked for legality.

use vstd::prelude::*;
use vstd::std_specs::cmp::PartialEqSpecImpl;
use crate::colour::Colour;
use crate::coordinate::Coordinate;
use crate::geometry::{cell_count, liberties, neighbour_cells, neighbours};
use crate::group::{holder, holder_from, lemma_holder_from, mergeable, merged, shapes_of, Group,
    GroupShape};
use crate::group_state::cells_of;

verus! {

broadcast use vstd::std_specs::hash::group_hash_axioms;

/// The side length of the board.
pub const BOARD_SIZE: usize = 19;

/// The most stones that a move can take off the board: four groups of at
/// most a full board each.
pub const MOST_TAKEN: usize = 1444;

/// What a counting board is, apart from how it is stored.
pub struct BoardShape {
    pub grid: Seq<Colour>,
    pub groups: Seq<GroupShape>,
    /// The black stones that White has taken.
    pub white_points: int,
    /// The white stones that Black has taken.
    pub black_points: int,
}

/// `groups` without the groups that are equal to one of `gone`.
pub open spec fn without_equal(groups: Seq<GroupShape>, gone: Seq<GroupShape>) -> Seq<GroupShape> {
    groups.filter(|g: GroupShape| !gone.contains(g))
}

/// `grid` with the cells of `points` emptied.
pub open spec fn emptied(grid: Seq<Colour>, points: Set<usize>) -> Seq<Colour> {
    Seq::new(
        grid.len(),
        |cell: int|
            if points.contains(cell as usize) {
                Colour::Empty
            } else {
                grid[cell]
            },
    )
}

/// One liberty less for the group at place `at`.
pub open spec fn struck_once(groups: Seq<GroupShape>, at: int) -> Seq<GroupShape> {
    groups.update(
        at,
        GroupShape { liberties: (groups[at].liberties - 1) as usize, ..groups[at] },
    )
}

/// The place of the group that a stone of `colour` strikes through the
/// neighbouring cell `cell`: the first group of the other colour that holds
/// the cell, if the cell does not show the stone's colour.
pub open spec fn target(groups: Seq<GroupShape>, grid: Seq<Colour>, cell: usize, colour: Colour)
    -> Option<int> {
    if grid[cell as int] != colour {
        holder(groups, cell, colour.opponent())
    } else {
        None
    }
}

/// The groups after a stone of `colour` has struck through the first `upto`
/// cells of `around`, and the groups that are marked to leave: those whose
/// count came to nothing, as they were then.
pub open spec fn struck(
    groups: Seq<GroupShape>,
    grid: Seq<Colour>,
    around: Seq<usize>,
    colour: Colour,
    upto: int,
) -> (Seq<GroupShape>, Seq<GroupShape>)
    decreases upto,
{
    if upto <= 0 {
        (groups, Seq::empty())
    } else {
        let before = struck(groups, grid, around, colour, upto - 1);
        match target(before.0, grid, around[upto - 1], colour) {
            Some(at) => {
                let after = struck_once(before.0, at);
                if after[at].liberties < 1 {
                    (after, before.1.push(after[at]))
                } else {
                    (after, before.1)
                }
            },
            None => before,
        }
    }
}

/// Whether every strike through the first `upto` cells of `around` finds a
/// liberty to take.
pub open spec fn can_strike(
    groups: Seq<GroupShape>,
    grid: Seq<Colour>,
    around: Seq<usize>,
    colour: Colour,
    upto: int,
) -> bool
    decreases upto,
{
    if upto <= 0 {
        true
    } else {
        let before = struck(groups, grid, around, colour, upto - 1);
        &&& can_strike(groups, grid, around, colour, upto - 1)
        &&& target(before.0, grid, around[upto - 1], colour) matches Some(at)
            ==> before.0[at].liberties > 0
    }
}

/// Every group with the liberties that it has on `grid`.
pub open spec fn recounted(groups: Seq<GroupShape>, grid: Seq<Colour>) -> Seq<GroupShape> {
    Seq::new(
        groups.len(),
        |i: int|
            GroupShape {
                liberties: liberties(groups[i].points, grid, BOARD_SIZE).len() as usize,
                ..groups[i]
            },
    )
}

/// Whether every stone of every group stands on the board.
pub open spec fn all_fit(groups: Seq<GroupShape>) -> bool {
    forall|i: int, p: usize|
        0 <= i < groups.len() && #[trigger] groups[i].points.contains(p) ==> p < cell_count(
            BOARD_SIZE,
        )
}

impl BoardShape {
    /// The board once `group` has left it: its cells are empty, every group
    /// equal to it is off the list, and its stones are counted for the
    /// other side.
    pub open spec fn removed(self, group: GroupShape) -> BoardShape {
        BoardShape {
            grid: emptied(self.grid, group.points),
            groups: self.groups.filter(|g: GroupShape| g != group),
            white_points: if group.colour == Colour::Black {
                self.white_points + group.points.len()
            } else {
                self.white_points
            },
            black_points: if group.colour == Colour::White {
                self.black_points + group.points.len()
            } else {
                self.black_points
            },
        }
    }

    /// The board once the first `upto` of `leaving` have left it, one after
    /// the other.
    pub open spec fn removed_all(self, leaving: Seq<GroupShape>, upto: int) -> BoardShape
        decreases upto,
    {
        if upto <= 0 {
            self
        } else {
            self.removed_all(leaving, upto - 1).removed(leaving[upto - 1])
        }
    }

    /// The board once the groups of `list` are joined into one, which comes
    /// last in the list of groups.
    pub open spec fn joined(self, list: Seq<GroupShape>) -> BoardShape {
        BoardShape { groups: without_equal(self.groups, list).push(merged(list)), ..self }
    }

    /// The board once a stone of `colour` stands on the empty cell `cell`
    /// and is joined with the groups of its colour around it.
    pub open spec fn placed(self, cell: usize, colour: Colour) -> BoardShape {
        let grid = self.grid.update(cell as int, colour);
        let around = neighbours(BOARD_SIZE, cell);
        let me = GroupShape { colour, liberties: 4, points: set![cell] };
        (BoardShape { grid, ..self }).joined(
            mergeable(me, grid, self.groups, around, around.len() as int),
        )
    }

    /// Whether a stone of `colour` can be placed on `cell`: if the cell is
    /// empty, each strike of the stone finds a liberty to take.
    pub open spec fn can_place(self, cell: usize, colour: Colour) -> bool {
        self.grid[cell as int] == Colour::Empty ==> can_strike(
            self.placed(cell, colour).groups,
            self.placed(cell, colour).grid,
            neighbours(BOARD_SIZE, cell),
            colour,
            neighbours(BOARD_SIZE, cell).len() as int,
        )
    }

    /// The board after a stone of `colour` is placed on `cell`. On a cell
    /// that is not empty nothing happens. Else the stone is joined with
    /// the groups of its colour around it, strikes the groups of the other
    /// colour around it, the groups whose count came to nothing leave, and
    /// the liberties of all groups are counted anew.
    pub open spec fn with_stone(self, cell: usize, colour: Colour) -> BoardShape {
        if self.grid[cell as int] != Colour::Empty {
            self
        } else {
            let around = neighbours(BOARD_SIZE, cell);
            let placed = self.placed(cell, colour);
            let hit = struck(placed.groups, placed.grid, around, colour, around.len() as int);
            let cleared = (BoardShape { groups: hit.0, ..placed }).removed_all(
                hit.1,
                hit.1.len() as int,
            );
            BoardShape { groups: recounted(cleared.groups, cleared.grid), ..cleared }
        }
    }
}

/// If every strike finds a liberty, so does every strike before it.
pub proof fn lemma_can_strike_before(
    groups: Seq<GroupShape>,
    grid: Seq<Colour>,
    around: Seq<usize>,
    colour: Colour,
    upto: int,
    earlier: int,
)
    requires
        can_strike(groups, grid, around, colour, upto),
        0 <= earlier <= upto,
    ensures
        can_strike(groups, grid, around, colour, earlier),
    decreases upto,
{
    if earlier < upto {
        lemma_can_strike_before(groups, grid, around, colour, upto - 1, earlier);
    }
}

/// The stones of a group on the board are at most as many as the board has
/// cells.
pub proof fn lemma_group_size(points: Set<usize>)
    requires
        forall|p: usize| #[trigger] points.contains(p) ==> p < cell_count(BOARD_SIZE),
    ensures
        points.finite(),
        points.len() <= 361,
{
    assert(cell_count(BOARD_SIZE) == 361) by (nonlinear_arith)
        requires
            BOARD_SIZE == 19,
    ;
    let board = Set::<usize>::range(0, 361);
    vstd::set_lib::range_set_properties::<usize>(0, 361);
    assert(points.subset_of(board));
    vstd::set_lib::lemma_set_subset_finite(board, points);
    vstd::set_lib::lemma_len_subset(points, board);
}

/// Groups that are kept from a list of groups on the board are on the
/// board.
pub proof fn lemma_filter_fits(groups: Seq<GroupShape>, pred: spec_fn(GroupShape) -> bool)
    requires
        all_fit(groups),
    ensures
        all_fit(groups.filter(pred)),
{
    let kept = groups.filter(pred);
    assert forall|i: int, p: usize|
        0 <= i < kept.len() && #[trigger] kept[i].points.contains(p) implies p < cell_count(
        BOARD_SIZE,
    ) by {
        assert(kept.contains(kept[i]));
        groups.lemma_filter_contains_rev(pred, kept[i]);
        let j = choose|j: int| 0 <= j < groups.len() && groups[j] == kept[i];
        assert(groups[j].points.contains(p));
    }
}

/// Whether a group equal to `group` is in `list`.
pub fn list_contains(list: &Vec<Group>, group: &Group) -> (found: bool)
    ensures
        found == shapes_of(list@).contains(group@),
{
    let mut i: usize = 0;
    while i < list.len()
        invariant
            i <= list.len(),
            forall|k: int| 0 <= k < i ==> (#[trigger] shapes_of(list@)[k]) != group@,
        decreases list.len() - i,
    {
        if list[i] == *group {
            assert(shapes_of(list@)[i as int] == group@);
            return true;
        }
        i += 1;
    }
    false
}

#[derive(Debug)]
pub struct Board {
    /// The side length that the board was made with.
    pub size: usize,
    pub grid: Vec<Colour>,
    pub groups: Vec<Group>,
    /// The black stones that White has taken.
    pub white_points: usize,
    /// The white stones that Black has taken.
    pub black_points: usize,
}

impl Board {
    /// The board as a mathematical value.
    pub open spec fn shape(&self) -> BoardShape {
        BoardShape {
            grid: self.grid@,
            groups: shapes_of(self.groups@),
            white_points: self.white_points as int,
            black_points: self.black_points as int,
        }
    }

    /// What placing a stone needs: the grid covers the full board, and the
    /// stones of every group stand on it.
    pub open spec fn wf(&self) -> bool {
        &&& self.grid.len() == cell_count(BOARD_SIZE)
        &&& all_fit(shapes_of(self.groups@))
    }

    /// An empty board of side `size`.
    pub fn new(size: usize) -> (board: Self)
        requires
            cell_count(size) <= usize::MAX,
        ensures
            board.size == size,
            board.grid@ == Seq::new(cell_count(size) as nat, |cell: int| Colour::Empty),
            board.groups.len() == 0,
            board.white_points == 0,
            board.black_points == 0,
    {
        let cells: usize = size * size;
        let mut grid: Vec<Colour> = Vec::new();
        let mut i: usize = 0;
        while i < cells
            invariant
                i <= cells,
                grid.len() == i,
                forall|k: int| 0 <= k < i ==> grid@[k] == Colour::Empty,
            decreases cells - i,
        {
            grid.push(Colour::Empty);
            i += 1;
        }
        assert(grid@ =~= Seq::new(cell_count(size) as nat, |cell: int| Colour::Empty));
        Board { size, grid, groups: Vec::new(), white_points: 0, black_points: 0 }
    }

    /// The colour on `coordinate`.
    pub fn get(&self, coordinate: Coordinate) -> (colour: Colour)
        requires
            self.grid.len() == cell_count(BOARD_SIZE),
            coordinate.on_board(BOARD_SIZE as int),
        ensures
            colour == self.grid@[coordinate.index_on(BOARD_SIZE as int)],
    {
        let value: usize = coordinate.cell_on(BOARD_SIZE).unwrap();
        let colour = self.grid[value];
        match colour {
            Colour::Black => return Colour::Black,
            Colour::White => return Colour::White,
            Colour::Empty => return Colour::Empty,
        }
    }

    /// The place in the list of groups of the first group that has colour
    /// `colour` and a stone on `cell`.
    pub fn find_group_index(&self, cell: usize, colour: Colour) -> (found: Option<usize>)
        ensures
            match found {
                Some(i) => holder(shapes_of(self.groups@), cell, colour) == Some(i as int) && i
                    < self.groups.len(),
                None => holder(shapes_of(self.groups@), cell, colour) is None,
            },
    {
        let ghost shapes = shapes_of(self.groups@);
        let mut i: usize = 0;
        while i < self.groups.len()
            invariant
                i <= self.groups.len(),
                shapes == shapes_of(self.groups@),
                holder(shapes, cell, colour) == holder_from(shapes, cell, colour, i as int),
            decreases self.groups.len() - i,
        {
            if self.groups[i].contains(Coordinate::Index(cell), colour) {
                return Some(i);
            }
            i += 1;
        }
        None
    }

    /// The first group that has colour `colour` and a stone on `position`,
    /// to be changed in place.
    pub fn find_group(&mut self, position: Coordinate, colour: Colour) -> (found: Option<&mut Group>)
        requires
            position.on_board(BOARD_SIZE as int),
        ensures
            final(self).size == old(self).size,
            final(self).grid == old(self).grid,
            final(self).white_points == old(self).white_points,
            final(self).black_points == old(self).black_points,
            match found {
                Some(group) => {
                    let at = holder(
                        shapes_of(old(self).groups@),
                        position.index_on(BOARD_SIZE as int) as usize,
                        colour,
                    );
                    &&& at is Some
                    &&& *group == old(self).groups@[at->Some_0]
                    &&& final(self).groups@ == old(self).groups@.update(at->Some_0, *final(group))
                },
                None => holder(
                    shapes_of(old(self).groups@),
                    position.index_on(BOARD_SIZE as int) as usize,
                    colour,
                ) is None && final(self).groups == old(self).groups,
            },
    {
        assert(cell_count(BOARD_SIZE) <= usize::MAX) by (nonlinear_arith)
            requires
                BOARD_SIZE == 19,
        ;
        let cell: usize = position.cell_on(BOARD_SIZE).unwrap();
        match self.find_group_index(cell, colour) {
            Some(i) => Some(&mut self.groups[i]),
            None => None,
        }
    }

    /// Takes `group` off the board: its cells are emptied, every group
    /// equal to it leaves the list, and its stones are counted for the
    /// other side.
    pub fn remove_group(&mut self, group: Group)
        requires
            forall|p: usize| #[trigger] group.points@.contains(p) ==> p < old(self).grid.len(),
            old(self).white_points + group.points@.len() <= usize::MAX,
            old(self).black_points + group.points@.len() <= usize::MAX,
        ensures
            final(self).shape() == old(self).shape().removed(group@),
            final(self).size == old(self).size,
    {
        let points = cells_of(&group.points);
        let ghost start = self.grid@;
        assert(self.grid.len() <= usize::MAX);
        let mut count: usize = 0;
        let mut i: usize = 0;
        while i < points.len()
            invariant
                i <= points.len(),
                count == i,
                points@.to_set() == group.points@,
                self.grid@.len() == start.len() <= usize::MAX,
                self.size == old(self).size,
                self.groups == old(self).groups,
                self.white_points == old(self).white_points,
                self.black_points == old(self).black_points,
                forall|p: usize| #[trigger] group.points@.contains(p) ==> p < start.len(),
                forall|c: int|
                    0 <= c < start.len() ==> #[trigger] self.grid@[c] == (if points@.take(
                        i as int,
                    ).contains(c as usize) {
                        Colour::Empty
                    } else {
                        start[c]
                    }),
            decreases points.len() - i,
        {
            let index: usize = points[i];
            assert(points@.to_set().contains(index));
            self.grid.set(index, Colour::Empty);
            count += 1;
            proof {
                let seen = points@.take(i as int);
                let next = points@.take(i + 1);
                assert(next =~= seen.push(index));
                assert forall|c: int| 0 <= c < start.len() implies #[trigger] self.grid@[c] == (
                if next.contains(c as usize) {
                    Colour::Empty
                } else {
                    start[c]
                }) by {
                    if c == index {
                        assert(next[i as int] == index);
                    } else {
                        if seen.contains(c as usize) {
                            let k = choose|k: int| 0 <= k < seen.len() && seen[k] == c as usize;
                            assert(next[k] == c as usize);
                        }
                        if next.contains(c as usize) {
                            let k = choose|k: int| 0 <= k < next.len() && next[k] == c as usize;
                            if k < i {
                                assert(seen[k] == c as usize);
                            }
                        }
                    }
                }
            }
            i += 1;
        }
        proof {
            assert(points@.take(points.len() as int) =~= points@);
            assert forall|c: int| 0 <= c < start.len() implies #[trigger] self.grid@[c] == emptied(
                start,
                group.points@,
            )[c] by {
                assert(points@.contains(c as usize) <==> group.points@.contains(c as usize));
            }
            assert(self.grid@ =~= emptied(start, group.points@));
        }
        let ghost pred = |g: GroupShape| g != group@;
        let ghost shapes = shapes_of(self.groups@);
        let mut kept: Vec<Group> = Vec::new();
        let mut k: usize = 0;
        assert(shapes_of(kept@) =~= shapes.take(0).filter(pred));
        while k < self.groups.len()
            invariant
                k <= self.groups.len(),
                shapes == shapes_of(self.groups@),
                pred == |g: GroupShape| g != group@,
                shapes_of(kept@) == shapes.take(k as int).filter(pred),
            decreases self.groups.len() - k,
        {
            let ghost before = kept@;
            proof {
                assert(shapes.take(k + 1).drop_last() =~= shapes.take(k as int));
                assert(shapes.take(k + 1).last() == self.groups@[k as int]@);
                reveal(Seq::filter);
            }
            if self.groups[k] != group {
                kept.push(self.groups[k].clone());
                assert(shapes_of(kept@) =~= shapes_of(before).push(self.groups@[k as int]@));
            }
            k += 1;
        }
        assert(shapes.take(self.groups.len() as int) =~= shapes);
        self.groups = kept;
        match group.get_colour() {
            Colour::Black => {
                self.white_points += count;
            },
            Colour::White => {
                self.black_points += count;
            },
            _ => {},
        }
    }

    /// The points that touch `position`, in the order above, left, below,
    /// right.
    pub fn get_adjacent_indices(position: Coordinate) -> (indices: Vec<Coordinate>)
        requires
            position.on_board(BOARD_SIZE as int),
        ensures
            indices@ == neighbours(
                BOARD_SIZE,
                position.index_on(BOARD_SIZE as int) as usize,
            ).map_values(|cell: usize| Coordinate::Index(cell)),
    {
        let cell: usize = position.cell_on(BOARD_SIZE).unwrap();
        let cells = neighbour_cells(BOARD_SIZE, cell);
        let mut indices: Vec<Coordinate> = Vec::new();
        let mut i: usize = 0;
        while i < cells.len()
            invariant
                i <= cells.len(),
                indices.len() == i,
                forall|k: int| 0 <= k < i ==> indices@[k] == Coordinate::Index(cells@[k]),
            decreases cells.len() - i,
        {
            indices.push(Coordinate::Index(cells[i]));
            i += 1;
        }
        assert(indices@ =~= cells@.map_values(|cell: usize| Coordinate::Index(cell)));
        indices
    }

    /// Joins the groups of `groups` into one: every group equal to one of
    /// them leaves the list, and the joined group is put at its end.
    pub fn merge_groups(&mut self, groups: Vec<Group>)
        requires
            groups.len() > 0,
        ensures
            final(self).shape() == old(self).shape().joined(shapes_of(groups@)),
            final(self).size == old(self).size,
    {
        let new_group = Group::merge_groups(&groups);
        let ghost list = shapes_of(groups@);
        let ghost pred = |g: GroupShape| !list.contains(g);
        let ghost shapes = shapes_of(self.groups@);
        let mut kept: Vec<Group> = Vec::new();
        let mut k: usize = 0;
        assert(shapes_of(kept@) =~= shapes.take(0).filter(pred));
        while k < self.groups.len()
            invariant
                k <= self.groups.len(),
                shapes == shapes_of(self.groups@),
                list == shapes_of(groups@),
                pred == |g: GroupShape| !list.contains(g),
                shapes_of(kept@) == shapes.take(k as int).filter(pred),
            decreases self.groups.len() - k,
        {
            let ghost before = kept@;
            proof {
                assert(shapes.take(k + 1).drop_last() =~= shapes.take(k as int));
                assert(shapes.take(k + 1).last() == self.groups@[k as int]@);
                reveal(Seq::filter);
            }
            if !list_contains(&groups, &self.groups[k]) {
                kept.push(self.groups[k].clone());
                assert(shapes_of(kept@) =~= shapes_of(before).push(self.groups@[k as int]@));
            }
            k += 1;
        }
        assert(shapes.take(self.groups.len() as int) =~= shapes);
        let ghost before = kept@;
        kept.push(new_group);
        assert(shapes_of(kept@) =~= shapes_of(before).push(merged(list)));
        self.groups = kept;
    }

    /// Places a stone of `colour` on `coordinate` without asking whether
    /// the move is legal. On a point that is not empty nothing happens.
    pub fn add_stone(&mut self, coordinate: Coordinate, colour: Colour)
        requires
            old(self).wf(),
            coordinate.on_board(BOARD_SIZE as int),
            old(self).shape().can_place(coordinate.index_on(BOARD_SIZE as int) as usize, colour),
            old(self).white_points <= usize::MAX - MOST_TAKEN,
            old(self).black_points <= usize::MAX - MOST_TAKEN,
        ensures
            final(self).wf(),
            final(self).size == old(self).size,
            final(self).shape() == old(self).shape().with_stone(
                coordinate.index_on(BOARD_SIZE as int) as usize,
                colour,
            ),
    {
        assert(cell_count(BOARD_SIZE) == 361) by (nonlinear_arith)
            requires
                BOARD_SIZE == 19,
        ;
        let cell: usize = coordinate.cell_on(BOARD_SIZE).unwrap();
        if self.get(coordinate) == Colour::Empty {
            let ghost start = self.shape();
            let ghost around = neighbours(BOARD_SIZE, cell);
            let new_stone = Group::new(colour, Coordinate::Index(cell));
            self.grid.set(cell, colour);
            let mergeable = new_stone.find_mergeable_groups(self);
            proof {
                let me = GroupShape { colour, liberties: 4, points: set![cell] };
                assert(new_stone@ == me);
                let list = shapes_of(mergeable@);
                assert(list == crate::group::mergeable(
                    me,
                    self.grid@,
                    start.groups,
                    around,
                    around.len() as int,
                ));
                lemma_mergeable_fits(me, self.grid@, start.groups, around, around.len() as int);
            }
            self.merge_groups(mergeable);
            let ghost placed = start.placed(cell, colour);
            proof {
                assert(self.shape() == placed);
                lemma_joined_fits(start.groups, shapes_of(mergeable@));
            }
            self.strike(cell, colour);
        }
    }

    /// Strikes the groups around the stone of `colour` on `cell`, takes off
    /// the board those whose count comes to nothing, and counts the
    /// liberties of all groups anew.
    fn strike(&mut self, cell: usize, colour: Colour)
        requires
            old(self).wf(),
            cell < cell_count(BOARD_SIZE),
            can_strike(
                shapes_of(old(self).groups@),
                old(self).grid@,
                neighbours(BOARD_SIZE, cell),
                colour,
                neighbours(BOARD_SIZE, cell).len() as int,
            ),
            old(self).white_points <= usize::MAX - MOST_TAKEN,
            old(self).black_points <= usize::MAX - MOST_TAKEN,
        ensures
            final(self).wf(),
            final(self).size == old(self).size,
            ({
                let placed = old(self).shape();
                let around = neighbours(BOARD_SIZE, cell);
                let hit = struck(placed.groups, placed.grid, around, colour, around.len() as int);
                let cleared = (BoardShape { groups: hit.0, ..placed }).removed_all(
                    hit.1,
                    hit.1.len() as int,
                );
                final(self).shape() == (BoardShape {
                    groups: recounted(cleared.groups, cleared.grid),
                    ..cleared
                })
            }),
    {
        assert(cell_count(BOARD_SIZE) == 361) by (nonlinear_arith)
            requires
                BOARD_SIZE == 19,
        ;
        let ghost placed = self.shape();
        let ghost around = neighbours(BOARD_SIZE, cell);
        let adjacent_groups_positions = neighbour_cells(BOARD_SIZE, cell);
        let mut groups_to_remove: Vec<Group> = Vec::new();
        let mut k: usize = 0;
        assert(shapes_of(groups_to_remove@) =~= Seq::<GroupShape>::empty());
        while k < adjacent_groups_positions.len()
            invariant
                k <= adjacent_groups_positions.len(),
                adjacent_groups_positions@ == around,
                around == neighbours(BOARD_SIZE, cell),
                cell < cell_count(BOARD_SIZE) == self.grid.len(),
                self.grid@ == placed.grid,
                self.size == old(self).size,
                self.white_points == old(self).white_points,
                self.black_points == old(self).black_points,
                can_strike(placed.groups, placed.grid, around, colour, around.len() as int),
                struck(placed.groups, placed.grid, around, colour, k as int) == (
                    shapes_of(self.groups@),
                    shapes_of(groups_to_remove@),
                ),
                all_fit(shapes_of(self.groups@)),
                all_fit(shapes_of(groups_to_remove@)),
                groups_to_remove.len() <= k,
            decreases adjacent_groups_positions.len() - k,
        {
            let group_position: usize = adjacent_groups_positions[k];
            let ghost before = shapes_of(self.groups@);
            let ghost marked = groups_to_remove@;
            proof {
                assert(around.contains(group_position));
                crate::geometry::lemma_neighbours_adjacent(BOARD_SIZE, cell, group_position);
                crate::geometry::lemma_adjacent_symmetric(BOARD_SIZE, cell, group_position);
                lemma_can_strike_before(
                    placed.groups,
                    placed.grid,
                    around,
                    colour,
                    around.len() as int,
                    k + 1,
                );
            }
            if self.grid[group_position] != colour {
                if let Some(index) = self.find_group_index(group_position, colour.swap_turn()) {
                    assert(target(before, placed.grid, group_position, colour) == Some(
                        index as int,
                    ));
                    assert(before[index as int].liberties > 0);
                    let count = self.groups[index].decrease_and_get_liberties();
                    assert(shapes_of(self.groups@) =~= struck_once(before, index as int));
                    if count < 1 {
                        groups_to_remove.push(self.groups[index].clone());
                        assert(shapes_of(groups_to_remove@) =~= shapes_of(marked).push(
                            shapes_of(self.groups@)[index as int],
                        ));
                    }
                }
            }
            k += 1;
        }
        let ghost hit = struck(placed.groups, placed.grid, around, colour, around.len() as int);
        let ghost base = BoardShape { groups: hit.0, ..placed };
        proof {
            crate::geometry::lemma_neighbours_adjacent(BOARD_SIZE, cell, cell);
        }
        let mut r: usize = 0;
        while r < groups_to_remove.len()
            invariant
                r <= groups_to_remove.len() <= 4,
                shapes_of(groups_to_remove@) == hit.1,
                all_fit(hit.1),
                self.grid.len() == cell_count(BOARD_SIZE) == 361,
                self.size == old(self).size,
                self.shape() == base.removed_all(hit.1, r as int),
                all_fit(shapes_of(self.groups@)),
                self.white_points <= old(self).white_points + r * 361,
                self.black_points <= old(self).black_points + r * 361,
                old(self).white_points <= usize::MAX - MOST_TAKEN,
                old(self).black_points <= usize::MAX - MOST_TAKEN,
            decreases groups_to_remove.len() - r,
        {
            let group = groups_to_remove[r].clone();
            proof {
                assert(group@ == hit.1[r as int]);
                assert forall|p: usize| #[trigger] group.points@.contains(p) implies p
                    < cell_count(BOARD_SIZE) by {
                    assert(hit.1[r as int].points.contains(p));
                }
                lemma_group_size(group.points@);
                lemma_filter_fits(shapes_of(self.groups@), |g: GroupShape| g != group@);
            }
            self.remove_group(group);
            r += 1;
        }
        let ghost cleared = base.removed_all(hit.1, hit.1.len() as int);
        let group_count: usize = self.groups.len();
        let mut i: usize = 0;
        while i < group_count
            invariant
                i <= group_count == self.groups.len() == cleared.groups.len(),
                self.grid.len() == cell_count(BOARD_SIZE),
                self.grid@ == cleared.grid,
                self.size == old(self).size,
                self.white_points == cleared.white_points,
                self.black_points == cleared.black_points,
                all_fit(cleared.groups),
                forall|j: int|
                    0 <= j < group_count ==> (#[trigger] self.groups@[j])@ == (if j < i {
                        recounted(cleared.groups, cleared.grid)[j]
                    } else {
                        cleared.groups[j]
                    }),
            decreases group_count - i,
        {
            let ghost before = self.groups@;
            proof {
                assert forall|p: usize| #[trigger] self.groups@[i as int].points@.contains(
                    p,
                ) implies p < cell_count(BOARD_SIZE) by {
                    assert(cleared.groups[i as int].points.contains(p));
                }
            }
            let mut group = self.groups[i].clone();
            group.calculate_liberties(&self.grid);
            self.groups.set(i, group);
            i += 1;
        }
        proof {
            assert(shapes_of(self.groups@) =~= recounted(cleared.groups, cleared.grid));
            assert forall|j: int, p: usize|
                0 <= j < self.groups.len() && #[trigger] shapes_of(self.groups@)[j].points.contains(
                    p,
                ) implies p < cell_count(BOARD_SIZE) by {
                assert(cleared.groups[j].points.contains(p));
            }
        }
    }

    pub fn get_grid(&self) -> (grid: &Vec<Colour>)
        ensures
            grid == self.grid,
    {
        &self.grid
    }
}

/// The groups that a stone on the board is to be joined with are on the
/// board, if the groups of the board are.
pub proof fn lemma_mergeable_fits(
    me: GroupShape,
    grid: Seq<Colour>,
    groups: Seq<GroupShape>,
    around: Seq<usize>,
    upto: int,
)
    requires
        all_fit(groups),
        forall|p: usize| #[trigger] me.points.contains(p) ==> p < cell_count(BOARD_SIZE),
    ensures
        all_fit(mergeable(me, grid, groups, around, upto)),
        mergeable(me, grid, groups, around, upto).len() > 0,
    decreases upto,
{
    if upto > 0 {
        lemma_mergeable_fits(me, grid, groups, around, upto - 1);
        let cell = around[upto - 1];
        if grid[cell as int] == me.colour && holder(groups, cell, me.colour) is Some {
            lemma_holder_from(groups, cell, me.colour, 0);
        }
    }
}

/// Joining groups that are on the board leaves every group on the board.
pub proof fn lemma_joined_fits(groups: Seq<GroupShape>, list: Seq<GroupShape>)
    requires
        all_fit(groups),
        all_fit(list),
        list.len() > 0,
    ensures
        all_fit(without_equal(groups, list).push(merged(list))),
{
    let pred = |g: GroupShape| !list.contains(g);
    lemma_filter_fits(groups, pred);
    let kept = without_equal(groups, list);
    let all = kept.push(merged(list));
    assert forall|i: int, p: usize|
        0 <= i < all.len() && #[trigger] all[i].points.contains(p) implies p < cell_count(
        BOARD_SIZE,
    ) by {
        if i < kept.len() {
            assert(kept[i].points.contains(p));
        } else {
            let sets = Seq::new(list.len(), |k: int| list[k].points);
            let w = choose|w: int| 0 <= w < sets.len() && #[trigger] sets[w].contains(p);
            assert(list[w].points.contains(p));
        }
    }
}

impl Clone for Board {
    fn clone(&self) -> (copy: Self)
        ensures
            copy.size == self.size,
            copy.shape() == self.shape(),
    {
        let mut grid: Vec<Colour> = Vec::new();
        let mut i: usize = 0;
        while i < self.grid.len()
            invariant
                i <= self.grid.len(),
                grid@ == self.grid@.take(i as int),
            decreases self.grid.len() - i,
        {
            grid.push(self.grid[i]);
            assert(self.grid@.take(i + 1) =~= self.grid@.take(i as int).push(self.grid@[i as int]));
            i += 1;
        }
        assert(self.grid@.take(self.grid.len() as int) =~= self.grid@);
        let mut groups: Vec<Group> = Vec::new();
        let mut k: usize = 0;
        while k < self.groups.len()
            invariant
                k <= self.groups.len(),
                groups.len() == k,
                forall|j: int| 0 <= j < k ==> (#[trigger] groups@[j])@ == self.groups@[j]@,
            decreases self.groups.len() - k,
        {
            groups.push(self.groups[k].clone());
            k += 1;
        }
        assert(shapes_of(groups@) =~= shapes_of(self.groups@));
        Board {
            size: self.size,
            grid,
            groups,
            white_points: self.white_points,
            black_points: self.black_points,
        }
    }
}

impl PartialEq for Board {
    fn eq(&self, other: &Self) -> (same: bool) {
        if self.size != other.size || self.white_points != other.white_points || self.black_points
            != other.black_points || self.grid.len() != other.grid.len() || self.groups.len()
            != other.groups.len() {
            assert(self.grid@.len() != other.grid@.len() ==> !(self.grid@ =~= other.grid@));
            assert(self.groups@.len() != other.groups@.len() ==> !(shapes_of(self.groups@)
                =~= shapes_of(other.groups@)));
            return false;
        }
        let mut i: usize = 0;
        while i < self.grid.len()
            invariant
                i <= self.grid.len() == other.grid.len(),
                forall|j: int| 0 <= j < i ==> self.grid@[j] == other.grid@[j],
            decreases self.grid.len() - i,
        {
            if self.grid[i] != other.grid[i] {
                assert(!(self.grid@ =~= other.grid@));
                return false;
            }
            i += 1;
        }
        assert(self.grid@ =~= other.grid@);
        let mut k: usize = 0;
        while k < self.groups.len()
            invariant
                k <= self.groups.len() == other.groups.len(),
                forall|j: int| 0 <= j < k ==> (#[trigger] self.groups@[j])@ == other.groups@[j]@,
            decreases self.groups.len() - k,
        {
            if self.groups[k] != other.groups[k] {
                assert(shapes_of(self.groups@)[k as int] != shapes_of(other.groups@)[k as int]);
                return false;
            }
            k += 1;
        }
        assert(shapes_of(self.groups@) =~= shapes_of(other.groups@));
        true
    }
}

impl PartialEqSpecImpl for Board {
    open spec fn obeys_eq_spec() -> bool {
        true
    }

    open spec fn eq_spec(&self, other: &Self) -> bool {
        self.size == other.size && self.shape() == other.shape()
    }
}

} // verus!
