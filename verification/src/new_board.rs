//! A board of the full tournament size that is changed in place. It keeps a
//! grid of colours beside the grid of owners, and its groups carry a count
//! of their liberties. Stones are placed without regard to suicide or ko.

use vstd::prelude::*;
use vstd::std_specs::hash::*;
use std::collections::{HashMap, HashSet};
use crate::board_state::keys_of;
use crate::board_view::{coherent, colour_at, colour_grid, friend_at, linked, referenced,
    referenced_ids, touches_friend, without, BoardView};
use crate::colour::Colour;
use crate::coordinate::Coordinate;
use crate::geometry::{adjacent, cell_count, has_liberty, lemma_adjacent_symmetric,
    lemma_has_liberty_counts, lemma_neighbours_adjacent, liberties, neighbour_cells, neighbours};
use crate::group_state::{cells_of, touching_pairs, GroupView};
use crate::new_group::{NewGroup, NewGroupView};

verus! {

broadcast use vstd::std_specs::hash::group_hash_axioms;

/// The side length of the board.
pub const BOARD_SIZE: usize = 19;

/// The groups of a map of counted groups, without their counts.
pub open spec fn plain_views(map: Map<usize, NewGroup>) -> Map<usize, GroupView> {
    Map::new(
        |g: usize| map.contains_key(g),
        |g: usize| GroupView { id: map[g].id, colour: map[g].colour, points: map[g].points@ },
    )
}

/// A counted group after its liberties were counted on `grid`. A group
/// without stones keeps the count it had.
pub open spec fn recounted(group: NewGroupView, grid: Seq<Colour>) -> NewGroupView {
    NewGroupView {
        liberties: if group.points.len() == 0 {
            group.liberties
        } else {
            liberties(group.points, grid, BOARD_SIZE).len() as usize
        },
        ..group
    }
}

/// The ids of the groups that `map` files under one of `keys`.
pub open spec fn filed_ids(map: Map<usize, NewGroup>, keys: Seq<usize>) -> Set<usize> {
    Set::new(
        |g: usize|
            exists|k: usize| keys.contains(k) && map.contains_key(k) && #[trigger] map[k].id == g,
    )
}

/// The counts of liberties that the groups of a map carry.
pub open spec fn counts_of(map: Map<usize, NewGroup>) -> Map<usize, usize> {
    Map::new(|g: usize| map.contains_key(g), |g: usize| map[g].liberties)
}

/// The stones of a board with the counts of liberties that its groups
/// carry.
pub struct CountedView {
    pub stones: BoardView,
    /// For each group, the liberties that it was last counted to have.
    pub counts: Map<usize, usize>,
}

/// The count of liberties that group `g` carries after a stone of `colour`
/// was placed on `cell`: four for the stone's own group, a fresh count for
/// the groups of the other colour next to the stone, and for every other
/// group the count it carried before.
pub open spec fn count_after_on(board: CountedView, cell: usize, colour: Colour, g: usize) -> int {
    let owners = board.stones.placed_owners(cell, colour);
    let groups = board.stones.placed_groups(cell, colour);
    if g == board.stones.counter {
        4
    } else if next_to(owners, groups, cell, colour.opponent(), g) {
        liberties(groups[g].points, colour_grid(owners, groups), BOARD_SIZE).len() as int
    } else {
        board.counts[g] as int
    }
}

/// The board after a stone of `colour` was placed on the empty cell `cell`:
/// the stone has joined the groups of its colour around it, the groups that
/// it takes are gone, and every group that is left carries its count.
pub open spec fn with_stone(board: CountedView, cell: usize, colour: Colour) -> CountedView {
    let stones = board.stones.cleared(cell, colour, taken_on(board.stones, cell, colour));
    CountedView {
        stones,
        counts: Map::new(
            |g: usize| stones.groups.contains_key(g),
            |g: usize| count_after_on(board, cell, colour, g) as usize,
        ),
    }
}

/// The ids of the groups that a stone of `colour` on `cell` takes off the
/// stones of `board`: the groups of the other colour that own a cell next
/// to the stone and are left without a liberty.
pub open spec fn taken_on(board: BoardView, cell: usize, colour: Colour) -> Set<usize> {
    let owners = board.placed_owners(cell, colour);
    let groups = board.placed_groups(cell, colour);
    Set::new(
        |g: usize|
            next_to(owners, groups, cell, colour.opponent(), g) && !has_liberty(
                groups[g].points,
                colour_grid(owners, groups),
                BOARD_SIZE,
            ),
    )
}

/// Whether group `g` has colour `colour` and owns a cell next to `cell`.
pub open spec fn next_to(
    owners: Seq<Option<usize>>,
    groups: Map<usize, GroupView>,
    cell: usize,
    colour: Colour,
    g: usize,
) -> bool {
    exists|a: usize|
        #![trigger adjacent(BOARD_SIZE, cell, a)]
        adjacent(BOARD_SIZE, cell, a) && a < owners.len() && owners[a as int] == Some(g)
            && groups[g].colour == colour
}

pub struct NewBoard {
    /// The colours of the cells, as of the last time the board was brought
    /// up to date.
    pub grid: Vec<Colour>,
    pub group_map: HashMap<usize, NewGroup>,
    /// For each cell, the id of the group that holds it.
    pub groups: Vec<Option<usize>>,
    /// The id that the next group will get.
    pub group_counter: usize,
}

/// The ids of `ids`, in their order.
pub fn copy_ids(ids: &Vec<usize>) -> (copy: Vec<usize>)
    ensures
        copy@ == ids@,
{
    let mut copy: Vec<usize> = Vec::new();
    let mut i: usize = 0;
    while i < ids.len()
        invariant
            i <= ids.len(),
            copy@ == ids@.take(i as int),
        decreases ids.len() - i,
    {
        copy.push(ids[i]);
        assert(ids@.take(i + 1) =~= ids@.take(i as int).push(ids@[i as int]));
        i += 1;
    }
    assert(ids@.take(ids.len() as int) =~= ids@);
    copy
}

/// Stones on the board are a finite set, and the count of their liberties
/// is zero exactly when they have none.
pub proof fn lemma_group_is_counted(points: Set<usize>, grid: Seq<Colour>)
    requires
        grid.len() == cell_count(BOARD_SIZE),
        forall|p: usize| #[trigger] points.contains(p) ==> p < cell_count(BOARD_SIZE),
    ensures
        points.finite(),
        (exists|p: usize| points.contains(p)) ==> points.len() > 0,
        has_liberty(points, grid, BOARD_SIZE) <==> liberties(points, grid, BOARD_SIZE).len() > 0,
        liberties(points, grid, BOARD_SIZE).len() <= usize::MAX,
{
    assert(cell_count(BOARD_SIZE) == 361) by (nonlinear_arith)
        requires
            BOARD_SIZE == 19,
    ;
    let board = Set::<usize>::range(0, 361);
    vstd::set_lib::range_set_properties::<usize>(0, 361);
    assert(points.subset_of(board));
    vstd::set_lib::lemma_set_subset_finite(board, points);
    lemma_has_liberty_counts(points, grid, BOARD_SIZE);
    if exists|p: usize| points.contains(p) {
        let p = choose|p: usize| points.contains(p);
        if points.len() == 0 {
            points.lemma_len0_is_empty();
            assert(!points.contains(p));
        }
    }
}

impl NewBoard {
    /// The stones of the board as a board without history.
    pub open spec fn shape(&self) -> BoardView {
        BoardView {
            size: BOARD_SIZE,
            owners: self.groups@,
            groups: plain_views(self.group_map@),
            counter: self.group_counter,
            keys: Seq::empty(),
            visited: Set::empty(),
        }
    }

    /// What the look-ups need: both grids cover the board, every owner is
    /// in the map, every group is filed under its own id, and its stones
    /// stand on the board.
    pub open spec fn coherent(&self) -> bool {
        &&& coherent(self.groups@, plain_views(self.group_map@), BOARD_SIZE)
        &&& self.grid.len() == cell_count(BOARD_SIZE)
    }

    /// Whether the grid of colours is up to date.
    pub open spec fn reflected(&self) -> bool {
        self.grid@ == colour_grid(self.groups@, plain_views(self.group_map@))
    }

    /// The invariant between moves: the stones are well formed and the grid
    /// of colours is up to date.
    pub open spec fn wf(&self) -> bool {
        &&& self.shape().shape_wf()
        &&& self.grid.len() == cell_count(BOARD_SIZE)
        &&& self.reflected()
    }

    /// An empty board.
    pub fn new() -> (board: Self)
        ensures
            board.wf(),
            board.group_counter == 0,
            board.group_map@ == Map::<usize, NewGroup>::empty(),
            board.groups@ == Seq::new(cell_count(BOARD_SIZE) as nat, |cell: int| None::<usize>),
            board.grid@ == Seq::new(cell_count(BOARD_SIZE) as nat, |cell: int| Colour::Empty),
    {
        let cells: usize = BOARD_SIZE * BOARD_SIZE;
        let mut grid: Vec<Colour> = Vec::new();
        let mut groups: Vec<Option<usize>> = Vec::new();
        let mut i: usize = 0;
        while i < cells
            invariant
                i <= cells,
                grid.len() == i,
                groups.len() == i,
                forall|k: int| 0 <= k < i ==> grid@[k] == Colour::Empty,
                forall|k: int| 0 <= k < i ==> groups@[k] == None::<usize>,
            decreases cells - i,
        {
            grid.push(Colour::Empty);
            groups.push(None);
            i += 1;
        }
        let board = NewBoard { grid, group_map: HashMap::new(), groups, group_counter: 0 };
        proof {
            assert(board.groups@ =~= Seq::new(
                cell_count(BOARD_SIZE) as nat,
                |cell: int| None::<usize>,
            ));
            assert(board.grid@ =~= Seq::new(
                cell_count(BOARD_SIZE) as nat,
                |cell: int| Colour::Empty,
            ));
            assert(plain_views(board.group_map@) =~= Map::<usize, GroupView>::empty());
            assert(board.grid@ =~= colour_grid(board.groups@, plain_views(board.group_map@)));
        }
        board
    }

    /// Takes the stones of `group` off the grid of owners. The map and the
    /// grid of colours are left as they are.
    pub fn remove_group(&mut self, group: NewGroup)
        ensures
            final(self).groups@ == without(old(self).groups@, set![group.id]),
            final(self).grid == old(self).grid,
            final(self).group_map == old(self).group_map,
            final(self).group_counter == old(self).group_counter,
    {
        let group_id: usize = *group.get_id();
        let ghost start = self.groups@;
        let mut cell: usize = 0;
        while cell < self.groups.len()
            invariant
                cell <= self.groups.len(),
                self.groups.len() == start.len(),
                self.grid == old(self).grid,
                self.group_map == old(self).group_map,
                self.group_counter == old(self).group_counter,
                forall|k: int|
                    0 <= k < cell ==> #[trigger] self.groups@[k] == without(
                        start,
                        set![group_id],
                    )[k],
                forall|k: int| cell <= k < start.len() ==> #[trigger] self.groups@[k] == start[k],
            decreases self.groups.len() - cell,
        {
            if let Some(id) = self.groups[cell] {
                if id == group_id {
                    self.groups.set(cell, None);
                }
            }
            cell += 1;
        }
        assert(self.groups@ =~= without(start, set![group_id]));
    }

    /// Takes off the grid of owners the stones of every group that the map
    /// files under one of `groups`.
    pub fn remove_groups(&mut self, groups: Vec<usize>)
        ensures
            final(self).groups@ == without(
                old(self).groups@,
                filed_ids(old(self).group_map@, groups@),
            ),
            final(self).grid == old(self).grid,
            final(self).group_map == old(self).group_map,
            final(self).group_counter == old(self).group_counter,
    {
        let ghost start = self.groups@;
        let ghost map = self.group_map@;
        let mut i: usize = 0;
        assert(self.groups@ =~= without(start, filed_ids(map, groups@.take(0))));
        while i < groups.len()
            invariant
                i <= groups.len(),
                self.grid == old(self).grid,
                self.group_map == old(self).group_map,
                self.group_counter == old(self).group_counter,
                start == old(self).groups@,
                map == old(self).group_map@,
                self.groups@ == without(start, filed_ids(map, groups@.take(i as int))),
            decreases groups.len() - i,
        {
            let group_id: usize = groups[i];
            let ghost before = self.groups@;
            let ghost seen = groups@.take(i as int);
            let ghost next = groups@.take(i + 1);
            let mut leaving: Option<NewGroup> = None;
            match self.group_map.get(&group_id) {
                Some(group) => {
                    leaving = Some(group.clone());
                },
                None => {},
            }
            if let Some(group) = leaving {
                self.remove_group(group);
            }
            proof {
                assert(next =~= seen.push(group_id));
                assert forall|k: usize| next.contains(k) <==> seen.contains(k) || k == group_id by {
                    if seen.contains(k) {
                        let w = choose|w: int| 0 <= w < seen.len() && seen[w] == k;
                        assert(next[w] == k);
                    }
                    if next.contains(k) {
                        let w = choose|w: int| 0 <= w < next.len() && next[w] == k;
                        if w < i {
                            assert(seen[w] == k);
                        }
                    }
                    assert(next[i as int] == group_id);
                }
                assert forall|g: usize| filed_ids(map, next).contains(g) <==> filed_ids(
                    map,
                    seen,
                ).contains(g) || (map.contains_key(group_id) && map[group_id].id == g) by {
                    if filed_ids(map, next).contains(g) {
                        let k = choose|k: usize|
                            next.contains(k) && map.contains_key(k) && #[trigger] map[k].id == g;
                        if k != group_id {
                            assert(seen.contains(k) && map.contains_key(k) && map[k].id == g);
                        }
                    }
                    if filed_ids(map, seen).contains(g) {
                        let k = choose|k: usize|
                            seen.contains(k) && map.contains_key(k) && #[trigger] map[k].id == g;
                        assert(next.contains(k) && map.contains_key(k) && map[k].id == g);
                    }
                    if map.contains_key(group_id) && map[group_id].id == g {
                        assert(next.contains(group_id));
                    }
                }
                assert(self.groups@ =~= without(start, filed_ids(map, next)));
            }
            i += 1;
        }
        assert(groups@.take(groups.len() as int) =~= groups@);
    }

    /// Counts anew the liberties of every group whose id is in `groups`, on
    /// the grid of colours as it stands.
    pub fn recalculate_liberties(&mut self, groups: Vec<usize>)
        requires
            old(self).coherent(),
            forall|i: int|
                0 <= i < groups.len() ==> old(self).group_map@.contains_key(#[trigger] groups[i]),
        ensures
            final(self).grid == old(self).grid,
            final(self).groups == old(self).groups,
            final(self).group_counter == old(self).group_counter,
            final(self).group_map@.dom() == old(self).group_map@.dom(),
            forall|g: usize| #[trigger]
                final(self).group_map@.contains_key(g) ==> final(self).group_map@[g]@ == (
                if groups@.contains(g) {
                    recounted(old(self).group_map@[g]@, old(self).grid@)
                } else {
                    old(self).group_map@[g]@
                }),
    {
        let mut i: usize = 0;
        while i < groups.len()
            invariant
                i <= groups.len(),
                old(self).coherent(),
                self.grid == old(self).grid,
                self.groups == old(self).groups,
                self.group_counter == old(self).group_counter,
                self.group_map@.dom() == old(self).group_map@.dom(),
                forall|k: int|
                    0 <= k < groups.len() ==> old(self).group_map@.contains_key(
                        #[trigger] groups[k],
                    ),
                forall|g: usize| #[trigger]
                    self.group_map@.contains_key(g) ==> self.group_map@[g]@ == (if groups@.take(
                        i as int,
                    ).contains(g) {
                        recounted(old(self).group_map@[g]@, old(self).grid@)
                    } else {
                        old(self).group_map@[g]@
                    }),
            decreases groups.len() - i,
        {
            let group_id: usize = groups[i];
            let ghost seen = groups@.take(i as int);
            let ghost next = groups@.take(i + 1);
            let ghost before = self.group_map@;
            assert(self.group_map@.contains_key(group_id));
            let mut group = self.group_map.remove(&group_id).unwrap();
            proof {
                assert(group == before[group_id]);
                assert(plain_views(old(self).group_map@).contains_key(group_id));
                assert forall|p: usize| #[trigger] group.points@.contains(p) implies p
                    < cell_count(BOARD_SIZE) by {
                    assert(plain_views(old(self).group_map@)[group_id].points.contains(p));
                }
            }
            group.calculate_liberties(&self.grid);
            self.group_map.insert(group_id, group);
            proof {
                assert(next =~= seen.push(group_id));
                assert(self.group_map@.dom() =~= old(self).group_map@.dom());
                assert forall|g: usize| #[trigger]
                    self.group_map@.contains_key(g) implies self.group_map@[g]@ == (
                if next.contains(g) {
                    recounted(old(self).group_map@[g]@, old(self).grid@)
                } else {
                    old(self).group_map@[g]@
                }) by {
                    if g == group_id {
                        assert(next[i as int] == g);
                    } else {
                        assert(self.group_map@[g] == before[g]);
                        if seen.contains(g) {
                            let k = choose|k: int| 0 <= k < seen.len() && seen[k] == g;
                            assert(next[k] == g);
                        }
                        if next.contains(g) {
                            let k = choose|k: int| 0 <= k < next.len() && next[k] == g;
                            assert(seen[k] == g);
                        }
                    }
                }
            }
            i += 1;
        }
        assert(groups@.take(groups.len() as int) =~= groups@);
    }

    /// Those of `ids`, in their order, whose groups are counted to have no
    /// liberty.
    pub fn check_liberties(&self, ids: Vec<usize>) -> (dead: Vec<usize>)
        requires
            forall|i: int| 0 <= i < ids.len() ==> self.group_map@.contains_key(#[trigger] ids[i]),
        ensures
            dead@ == ids@.filter(|g: usize| self.group_map@[g].liberties < 1),
    {
        let ghost pred = |g: usize| self.group_map@[g].liberties < 1;
        let mut groups: Vec<usize> = Vec::new();
        let mut i: usize = 0;
        assert(ids@.take(0).filter(pred) =~= Seq::<usize>::empty());
        while i < ids.len()
            invariant
                i <= ids.len(),
                pred == |g: usize| self.group_map@[g].liberties < 1,
                forall|k: int|
                    0 <= k < ids.len() ==> self.group_map@.contains_key(#[trigger] ids[k]),
                groups@ == ids@.take(i as int).filter(pred),
            decreases ids.len() - i,
        {
            let group_id: usize = ids[i];
            proof {
                assert(ids@.take(i + 1).drop_last() =~= ids@.take(i as int));
                assert(ids@.take(i + 1).last() == group_id);
                reveal(Seq::filter);
            }
            if *self.group_map.get(&group_id).unwrap().get_liberties() < 1 {
                groups.push(group_id);
            }
            i += 1;
        }
        assert(ids@.take(ids.len() as int) =~= ids@);
        groups
    }

    /// Brings the grid of colours up to date with the grid of owners.
    pub fn reflect_group_to_board(&mut self)
        requires
            old(self).coherent(),
        ensures
            final(self).reflected(),
            final(self).groups == old(self).groups,
            final(self).group_map == old(self).group_map,
            final(self).group_counter == old(self).group_counter,
    {
        let ghost views = plain_views(self.group_map@);
        let mut index: usize = 0;
        while index < self.groups.len()
            invariant
                index <= self.groups.len(),
                self.groups == old(self).groups,
                self.group_map == old(self).group_map,
                self.group_counter == old(self).group_counter,
                views == plain_views(self.group_map@),
                self.grid.len() == self.groups.len(),
                linked(self.groups@, views),
                forall|k: int|
                    0 <= k < index ==> #[trigger] self.grid@[k] == colour_at(self.groups@, views, k),
            decreases self.groups.len() - index,
        {
            match self.groups[index] {
                Some(id) => {
                    assert(views.contains_key(id));
                    let colour = self.group_map.get(&id).unwrap().get_colour();
                    self.grid.set(index, colour);
                },
                None => {
                    self.grid.set(index, Colour::Empty);
                },
            }
            index += 1;
        }
        assert(self.grid@ =~= colour_grid(self.groups@, views));
    }

    /// The colour that the grid of colours shows on `coordinate`.
    pub fn get(&self, coordinate: Coordinate) -> (colour: Colour)
        requires
            self.grid.len() == cell_count(BOARD_SIZE),
            coordinate.on_board(BOARD_SIZE as int),
        ensures
            colour == self.grid@[coordinate.index_on(BOARD_SIZE as int)],
    {
        let index: usize = coordinate.cell_on(BOARD_SIZE).unwrap();
        self.grid[index]
    }

    /// The points that touch `coordinate`, in the order above, left, below,
    /// right.
    pub fn get_adjacent_indices(coordinate: Coordinate) -> (indices: Vec<Coordinate>)
        requires
            coordinate.on_board(BOARD_SIZE as int),
        ensures
            indices@ == neighbours(
                BOARD_SIZE,
                coordinate.index_on(BOARD_SIZE as int) as usize,
            ).map_values(|cell: usize| Coordinate::Index(cell)),
    {
        let cell: usize = coordinate.cell_on(BOARD_SIZE).unwrap();
        let cells = neighbour_cells(BOARD_SIZE, cell);
        let mut indices: Vec<Coordinate> = Vec::new();
        let mut i: usize = 0;
        while i < cells.len()
            invariant
                i <= cells.len(),
                indices.len() == i,
                forall|k: int| 0 <= k < i ==> indices@[k] == Coordinate::Index(cells@[k]),
            decreases cells.len() - i,
        {
            indices.push(Coordinate::Index(cells[i]));
            i += 1;
        }
        assert(indices@ =~= cells@.map_values(|cell: usize| Coordinate::Index(cell)));
        indices
    }

    pub fn get_grid(&self) -> (grid: &Vec<Colour>)
        ensures
            grid == self.grid,
    {
        &self.grid
    }

    /// The groups that hold a cell of the board, each once, in the order of
    /// their first cells.
    pub fn get_current_groups(&self, coordinate: Coordinate) -> (current: Vec<NewGroup>)
        requires
            self.coherent(),
        ensures
            forall|i: int|
                0 <= i < current.len() ==> referenced(self.groups@, (#[trigger] current[i]).id)
                    && self.group_map@.contains_key(current[i].id) && current[i]@
                    == self.group_map@[current[i].id]@,
            forall|i: int, j: int| 0 <= i < j < current.len() ==> current[i].id != current[j].id,
            forall|g: usize|
                referenced(self.groups@, g) ==> exists|i: int|
                    0 <= i < current.len() && (#[trigger] current[i]).id == g,
    {
        let ghost views = plain_views(self.group_map@);
        let mut seen: HashSet<usize> = HashSet::new();
        let mut current: Vec<NewGroup> = Vec::new();
        let mut cell: usize = 0;
        while cell < self.groups.len()
            invariant
                cell <= self.groups.len(),
                views == plain_views(self.group_map@),
                coherent(self.groups@, views, BOARD_SIZE),
                forall|i: int|
                    0 <= i < current.len() ==> referenced(self.groups@, (#[trigger] current[i]).id)
                        && self.group_map@.contains_key(current[i].id) && current[i]@
                        == self.group_map@[current[i].id]@ && seen@.contains(current[i].id),
                forall|i: int, j: int|
                    0 <= i < j < current.len() ==> current[i].id != current[j].id,
                forall|g: usize|
                    seen@.contains(g) ==> exists|i: int|
                        0 <= i < current.len() && (#[trigger] current[i]).id == g,
                forall|k: int|
                    0 <= k < cell ==> (#[trigger] self.groups@[k] matches Some(g)
                        ==> seen@.contains(g)),
            decreases self.groups.len() - cell,
        {
            if let Some(key) = self.groups[cell] {
                assert(views.contains_key(key));
                assert(views[key].id == key);
                if let Some(group) = self.group_map.get(&key) {
                    if seen.insert(key) {
                        let ghost before = current@;
                        current.push(group.clone());
                        proof {
                            assert(forall|i: int|
                                0 <= i < before.len() ==> current@[i] == before[i]);
                            assert(current[before.len() as int].id == key);
                            assert forall|g: usize| seen@.contains(g) implies exists|i: int|
                                0 <= i < current.len() && (#[trigger] current[i]).id == g by {
                                if g != key {
                                    let i = choose|i: int|
                                        0 <= i < before.len() && (#[trigger] before[i]).id == g;
                                    assert(current[i].id == g);
                                }
                            }
                        }
                    }
                }
            }
            cell += 1;
        }
        proof {
            assert forall|g: usize| referenced(self.groups@, g) implies exists|i: int|
                0 <= i < current.len() && (#[trigger] current[i]).id == g by {
                let c = choose|c: int|
                    0 <= c < self.groups@.len() && #[trigger] self.groups@[c] == Some(g);
                assert(seen@.contains(g));
            }
        }
        current
    }

    /// Whether a group with the id of `group` holds a cell of the board.
    pub fn contains(&self, group: NewGroup) -> (found: bool)
        requires
            self.coherent(),
        ensures
            found == referenced(self.groups@, group.id),
    {
        let mut cell: usize = 0;
        while cell < self.groups.len()
            invariant
                cell <= self.groups.len(),
                forall|k: int| 0 <= k < cell ==> #[trigger] self.groups@[k] != Some(group.id),
            decreases self.groups.len() - cell,
        {
            if let Some(key) = self.groups[cell] {
                if key == group.id {
                    return true;
                }
            }
            cell += 1;
        }
        false
    }

    /// The group that holds `coordinate`, if a stone stands there.
    pub fn find_group(&self, coordinate: Coordinate) -> (group: Option<&NewGroup>)
        requires
            self.coherent(),
            coordinate.on_board(BOARD_SIZE as int),
        ensures
            match self.groups@[coordinate.index_on(BOARD_SIZE as int)] {
                Some(g) => group is Some && self.group_map@.contains_key(g) && *group->Some_0
                    == self.group_map@[g],
                None => group is None,
            },
    {
        let index: usize = coordinate.cell_on(BOARD_SIZE).unwrap();
        if let Some(group_id) = self.groups[index] {
            assert(plain_views(self.group_map@).contains_key(group_id));
            return self.group_map.get(&group_id)
        }
        None
    }

    /// Drops from the map the groups that no cell refers to.
    pub fn clean_map(&mut self)
        ensures
            final(self).group_map@ == old(self).group_map@.restrict(
                referenced_ids(old(self).groups@),
            ),
            final(self).grid == old(self).grid,
            final(self).groups == old(self).groups,
            final(self).group_counter == old(self).group_counter,
    {
        let mut current: HashSet<usize> = HashSet::new();
        let mut cell: usize = 0;
        while cell < self.groups.len()
            invariant
                cell <= self.groups.len(),
                self.grid == old(self).grid,
                self.groups == old(self).groups,
                self.group_map == old(self).group_map,
                self.group_counter == old(self).group_counter,
                forall|g: usize|
                    current@.contains(g) <==> exists|k: int|
                        0 <= k < cell && #[trigger] self.groups@[k] == Some(g),
            decreases self.groups.len() - cell,
        {
            if let Some(id) = self.groups[cell] {
                current.insert(id);
            }
            cell += 1;
        }
        assert(current@ =~= referenced_ids(self.groups@));
        let keys = keys_of(&self.group_map);
        let ghost start = self.group_map@;
        let mut i: usize = 0;
        while i < keys.len()
            invariant
                i <= keys.len(),
                self.grid == old(self).grid,
                self.groups == old(self).groups,
                self.group_counter == old(self).group_counter,
                start == old(self).group_map@,
                keys@.to_set() == start.dom(),
                current@ == referenced_ids(self.groups@),
                forall|g: usize|
                    #![trigger self.group_map@.contains_key(g)]
                    self.group_map@.contains_key(g) <==> start.contains_key(g) && (
                    current@.contains(g) || !keys@.take(i as int).contains(g)),
                forall|g: usize| #[trigger]
                    self.group_map@.contains_key(g) ==> self.group_map@[g] == start[g],
            decreases keys.len() - i,
        {
            let key: usize = keys[i];
            let ghost before = self.group_map@;
            if !current.contains(&key) {
                self.group_map.remove(&key);
                assert(self.group_map@ == before.remove(key));
            }
            proof {
                let seen = keys@.take(i as int);
                let next = keys@.take(i + 1);
                assert(next =~= seen.push(key));
                assert(keys@.to_set().contains(key));
                assert forall|g: usize|
                    #![trigger self.group_map@.contains_key(g)]
                    self.group_map@.contains_key(g) <==> start.contains_key(g) && (
                    current@.contains(g) || !next.contains(g)) by {
                    if g == key {
                        assert(next[i as int] == key);
                    } else {
                        if seen.contains(g) {
                            let k = choose|k: int| 0 <= k < seen.len() && seen[k] == g;
                            assert(next[k] == g);
                        }
                        if next.contains(g) {
                            let k = choose|k: int| 0 <= k < next.len() && next[k] == g;
                            assert(seen[k] == g);
                        }
                    }
                }
            }
            i += 1;
        }
        proof {
            assert(keys@.take(keys.len() as int) =~= keys@);
            assert forall|g: usize| #[trigger]
                self.group_map@.contains_key(g) <==> start.contains_key(g) && referenced_ids(
                    self.groups@,
                ).contains(g) by {
                if start.contains_key(g) {
                    assert(keys@.to_set().contains(g));
                }
            }
            assert(self.group_map@ =~= start.restrict(referenced_ids(self.groups@)));
        }
    }

    /// Whether no stone stands on `coordinate`.
    pub fn check_empty(&self, coordinate: Coordinate) -> (empty: bool)
        requires
            self.groups.len() == cell_count(BOARD_SIZE),
            coordinate.on_board(BOARD_SIZE as int),
        ensures
            empty == (self.groups@[coordinate.index_on(BOARD_SIZE as int)] is None),
    {
        let index: usize = coordinate.cell_on(BOARD_SIZE).unwrap();
        self.groups[index].is_none()
    }

    /// The ids of the groups of colour `colour` that own a point next to
    /// `coordinate`, each once, in no particular order. For the colour
    /// `Empty` there are none.
    pub fn find_groups_to_merge(&self, coordinate: Coordinate, colour: Colour) -> (ids: Vec<usize>)
        requires
            self.coherent(),
            coordinate.on_board(BOARD_SIZE as int),
        ensures
            ids@.no_duplicates(),
            forall|g: usize|
                ids@.contains(g) <==> colour != Colour::Empty && next_to(
                    self.groups@,
                    plain_views(self.group_map@),
                    coordinate.index_on(BOARD_SIZE as int) as usize,
                    colour,
                    g,
                ),
    {
        if colour == Colour::Empty {
            return Vec::new()
        }
        let ghost views = plain_views(self.group_map@);
        let cell: usize = coordinate.cell_on(BOARD_SIZE).unwrap();
        let around = neighbour_cells(BOARD_SIZE, cell);
        let mut id_set: HashSet<usize> = HashSet::new();
        let mut j: usize = 0;
        while j < around.len()
            invariant
                j <= around.len(),
                around@ == neighbours(BOARD_SIZE, cell),
                cell < cell_count(BOARD_SIZE),
                views == plain_views(self.group_map@),
                coherent(self.groups@, views, BOARD_SIZE),
                forall|g: usize|
                    #![trigger id_set@.contains(g)]
                    id_set@.contains(g) <==> exists|m: int|
                        0 <= m < j && self.groups@[(#[trigger] around@[m]) as int] == Some(g)
                            && views[g].colour == colour,
            decreases around.len() - j,
        {
            let point: usize = around[j];
            proof {
                assert(around@.contains(point));
                lemma_neighbours_adjacent(BOARD_SIZE, cell, point);
                lemma_adjacent_symmetric(BOARD_SIZE, cell, point);
            }
            if let Some(group_id) = self.groups[point] {
                assert(views.contains_key(group_id));
                if self.group_map.get(&group_id).unwrap().get_colour() == colour {
                    id_set.insert(group_id);
                }
            }
            j += 1;
        }
        let ids = cells_of(&id_set);
        proof {
            assert forall|g: usize| ids@.contains(g) <==> next_to(
                self.groups@,
                views,
                cell,
                colour,
                g,
            ) by {
                if ids@.contains(g) {
                    assert(ids@.to_set().contains(g));
                    let m = choose|m: int|
                        0 <= m < around@.len() && self.groups@[(#[trigger] around@[m]) as int]
                            == Some(g) && views[g].colour == colour;
                    assert(around@.contains(around@[m]));
                    lemma_neighbours_adjacent(BOARD_SIZE, cell, around@[m]);
                    lemma_adjacent_symmetric(BOARD_SIZE, cell, around@[m]);
                }
                if next_to(self.groups@, views, cell, colour, g) {
                    let a = choose|a: usize|
                        #![trigger adjacent(BOARD_SIZE, cell, a)]
                        adjacent(BOARD_SIZE, cell, a) && a < self.groups@.len()
                            && self.groups@[a as int] == Some(g) && views[g].colour == colour;
                    lemma_neighbours_adjacent(BOARD_SIZE, cell, a);
                    let m = choose|m: int| 0 <= m < around@.len() && around@[m] == a;
                    assert(self.groups@[around@[m] as int] == Some(g));
                    assert(id_set@.contains(g));
                    assert(ids@.to_set().contains(g));
                }
            }
        }
        ids
    }

    /// The groups that touch, from outside, the group that holds
    /// `coordinate` and that have its colour: each once, in no particular
    /// order. A cell counts as having the colour that the grid of colours
    /// shows, and every such cell around the group must hold a stone.
    pub fn find_adjacent_groups(&self, coordinate: Coordinate) -> (found: Vec<&NewGroup>)
        requires
            self.coherent(),
            coordinate.on_board(BOARD_SIZE as int),
            self.groups@[coordinate.index_on(BOARD_SIZE as int)] is Some,
            ({
                let own = self.group_map@[self.groups@[coordinate.index_on(
                    BOARD_SIZE as int,
                )]->Some_0];
                forall|p: usize, a: usize|
                    #![trigger own.points@.contains(p), adjacent(BOARD_SIZE, p, a)]
                    own.points@.contains(p) && adjacent(BOARD_SIZE, p, a) && !own.points@.contains(
                        a,
                    ) && self.grid@[a as int] == own.colour ==> self.groups@[a as int] is Some
            }),
        ensures
            ({
                let views = plain_views(self.group_map@);
                let own = self.group_map@[self.groups@[coordinate.index_on(
                    BOARD_SIZE as int,
                )]->Some_0];
                &&& forall|i: int|
                    0 <= i < found.len() ==> {
                        &&& self.group_map@.contains_key((#[trigger] found[i]).id)
                        &&& *found[i] == self.group_map@[found[i].id]
                        &&& self.shown_friend(own.points@, own.colour, found[i].id)
                    }
                &&& forall|i: int, j: int|
                    0 <= i < j < found.len() ==> found[i].id != found[j].id
                &&& forall|g: usize|
                    self.shown_friend(own.points@, own.colour, g) ==> exists|i: int|
                        0 <= i < found.len() && (#[trigger] found[i]).id == g
            }),
    {
        let cell: usize = coordinate.cell_on(BOARD_SIZE).unwrap();
        let group_id: usize = self.groups[cell].unwrap();
        let ghost views = plain_views(self.group_map@);
        assert(views.contains_key(group_id));
        let group = self.group_map.get(&group_id).unwrap();
        let group_colour = group.get_colour();
        let ghost own = group.points@;
        assert forall|p: usize| #[trigger] own.contains(p) implies p < cell_count(BOARD_SIZE) by {
            assert(views[group_id].points.contains(p));
        }
        let pairs = touching_pairs(&group.points, BOARD_SIZE);
        let mut seen: HashSet<usize> = HashSet::new();
        let mut found: Vec<&NewGroup> = Vec::new();
        let mut i: usize = 0;
        while i < pairs.len()
            invariant
                i <= pairs.len(),
                views == plain_views(self.group_map@),
                self.coherent(),
                own == group.points@,
                group_colour == group.colour,
                forall|p: usize, a: usize|
                    #![trigger own.contains(p), adjacent(BOARD_SIZE, p, a)]
                    own.contains(p) && adjacent(BOARD_SIZE, p, a) && !own.contains(a)
                        && self.grid@[a as int] == group_colour ==> self.groups@[a as int] is Some,
                forall|k: int|
                    0 <= k < pairs.len() ==> own.contains((#[trigger] pairs[k]).0) && adjacent(
                        BOARD_SIZE,
                        pairs[k].0,
                        pairs[k].1,
                    ),
                forall|k: int|
                    0 <= k < found.len() ==> {
                        &&& self.group_map@.contains_key((#[trigger] found[k]).id)
                        &&& *found[k] == self.group_map@[found[k].id]
                        &&& self.shown_friend(own, group_colour, found[k].id)
                        &&& seen@.contains(found[k].id)
                    },
                forall|k: int, j: int| 0 <= k < j < found.len() ==> found[k].id != found[j].id,
                forall|g: usize|
                    seen@.contains(g) ==> exists|k: int|
                        0 <= k < found.len() && (#[trigger] found[k]).id == g,
                forall|w: int, g: usize|
                    #![trigger self.shown_friend_at(own, group_colour, pairs[w].1, g)]
                    0 <= w < i && self.shown_friend_at(own, group_colour, pairs[w].1, g)
                        ==> seen@.contains(g),
            decreases pairs.len() - i,
        {
            let stone: usize = pairs[i].0;
            let near: usize = pairs[i].1;
            proof {
                lemma_adjacent_symmetric(BOARD_SIZE, stone, near);
            }
            if !group.points.contains(&near) && self.grid[near] == group_colour {
                assert(own.contains(stone) && adjacent(BOARD_SIZE, stone, near));
                let id: usize = self.groups[near].unwrap();
                assert(views.contains_key(id));
                assert(views[id].id == id);
                let potential_group = self.group_map.get(&id).unwrap();
                if potential_group.get_colour() == group_colour {
                    assert(self.shown_friend_at(own, group_colour, near, id));
                    assert(self.shown_friend(own, group_colour, id));
                    if seen.insert(id) {
                        let ghost before = found@;
                        found.push(potential_group);
                        assert(forall|k: int| 0 <= k < before.len() ==> found@[k] == before[k]);
                        assert forall|g: usize| seen@.contains(g) implies exists|k: int|
                            0 <= k < found.len() && (#[trigger] found[k]).id == g by {
                            if g == id {
                                assert(found[found.len() - 1].id == g);
                            } else {
                                let k = choose|k: int|
                                    0 <= k < before.len() && (#[trigger] before[k]).id == g;
                                assert(found[k].id == g);
                            }
                        }
                    }
                }
            }
            i += 1;
        }
        proof {
            assert forall|g: usize| self.shown_friend(own, group_colour, g) implies exists|i: int|
                0 <= i < found.len() && (#[trigger] found[i]).id == g by {
                let (p, a) = choose|p: usize, a: usize|
                    #![trigger own.contains(p), adjacent(BOARD_SIZE, p, a)]
                    own.contains(p) && adjacent(BOARD_SIZE, p, a) && self.shown_friend_at(
                        own,
                        group_colour,
                        a,
                        g,
                    );
                assert(pairs@.contains((p, a)));
                let w = choose|w: int| 0 <= w < pairs@.len() && pairs@[w] == (p, a);
                assert(pairs[w].1 == a);
                assert(seen@.contains(g));
            }
        }
        found
    }

    /// The ids of the groups that a stone of `colour` on `cell` takes off the
    /// board: the groups of the other colour that own a cell next to the
    /// stone and are left without a liberty.
    pub open spec fn taken(&self, cell: usize, colour: Colour) -> Set<usize> {
        taken_on(self.shape(), cell, colour)
    }

    /// The count of liberties that group `g` carries after a stone of
    /// `colour` was placed on `cell`: four for the stone's own group, a
    /// fresh count for the groups of the other colour next to the stone,
    /// and for every other group the count it carried before.
    pub open spec fn count_after(&self, cell: usize, colour: Colour, g: usize) -> int {
        count_after_on(self.counted(), cell, colour, g)
    }

    /// The stones of the board with the counts of liberties that the groups
    /// carry.
    pub open spec fn counted(&self) -> CountedView {
        CountedView { stones: self.shape(), counts: counts_of(self.group_map@) }
    }

    /// Puts a stone of `colour` on the empty cell `cell` of the grid of
    /// owners and joins it with the groups of its colour around it. The
    /// grid of colours is not touched.
    fn place(&mut self, cell: usize, colour: Colour)
        requires
            old(self).wf(),
            cell < cell_count(BOARD_SIZE),
            old(self).groups@[cell as int] is None,
            colour != Colour::Empty,
        ensures
            final(self).groups@ == old(self).shape().placed_owners(cell, colour),
            plain_views(final(self).group_map@) == old(self).shape().placed_groups(cell, colour),
            final(self).group_map@.contains_key(old(self).group_counter),
            final(self).group_map@[old(self).group_counter].liberties == 4,
            forall|g: usize|
                g != old(self).group_counter && #[trigger] final(self).group_map@.contains_key(g)
                    ==> old(self).group_map@.contains_key(g) && final(self).group_map@[g] == old(self).group_map@[g],
            final(self).grid == old(self).grid,
            final(self).group_counter == old(self).group_counter,
    {
        let counter: usize = self.group_counter;
        let place = Coordinate::Index(cell);
        let ghost board = self.shape();
        let ghost merged = board.merged_points(cell, colour);
        let ghost start_map = self.group_map@;
        proof {
            crate::board_view::lemma_merged_points(board, cell, colour);
            crate::board_view::lemma_seeded(board, cell, colour);
        }
        let new_group = NewGroup::new(counter, colour, place);
        self.group_map.insert(counter, new_group.clone());
        self.groups.set(cell, Some(counter));
        proof {
            assert(self.groups@ == board.seeded_owners(cell));
            assert(plain_views(self.group_map@) =~= board.seeded_groups(cell, colour));
            assert(self.group_map@[counter].points@ == set![cell]);
            assert forall|p: usize, a: usize|
                #![trigger set![cell].contains(p), adjacent(BOARD_SIZE, p, a)]
                set![cell].contains(p) && adjacent(BOARD_SIZE, p, a) && !set![cell].contains(a)
                    && self.grid@[a as int] == colour implies self.groups@[a as int] is Some by {
                lemma_adjacent_symmetric(BOARD_SIZE, p, a);
                assert(self.grid@[a as int] == colour_at(board.owners, board.groups, a as int));
            }
            assert forall|g: usize|
                self.shown_friend(set![cell], colour, g) <==> board.is_friend(cell, colour, g) by {
                if self.shown_friend(set![cell], colour, g) {
                    let (p, a) = choose|p: usize, a: usize|
                        #![trigger set![cell].contains(p), adjacent(BOARD_SIZE, p, a)]
                        set![cell].contains(p) && adjacent(BOARD_SIZE, p, a)
                            && self.shown_friend_at(set![cell], colour, a, g);
                    assert(touches_friend(
                        board.seeded_owners(cell),
                        board.seeded_groups(cell, colour),
                        BOARD_SIZE,
                        set![cell],
                        colour,
                        g,
                    ));
                }
                if board.is_friend(cell, colour, g) {
                    let (p, a) = choose|p: usize, a: usize|
                        #![trigger set![cell].contains(p), adjacent(BOARD_SIZE, p, a)]
                        set![cell].contains(p) && adjacent(BOARD_SIZE, p, a) && friend_at(
                            board.owners,
                            board.groups,
                            set![cell],
                            colour,
                            a,
                            g,
                        );
                    assert(self.grid@[a as int] == colour_at(board.owners, board.groups, a as int));
                    assert(board.groups.contains_key(g));
                    assert(g != counter);
                    assert(friend_at(
                        self.groups@,
                        plain_views(self.group_map@),
                        set![cell],
                        colour,
                        a,
                        g,
                    ));
                    assert(self.shown_friend_at(set![cell], colour, a, g));
                }
            }
        }
        let ghost seeded_map = self.group_map@;
        let mut surrounding_groups = self.find_adjacent_groups(place);

        if surrounding_groups.len() > 0 {
            let ghost friends = surrounding_groups@;
            surrounding_groups.push(&new_group);
            let merged_group = NewGroup::merge_groups(counter, &surrounding_groups);
            proof {
                let ids = Seq::new(friends.len(), |i: int| friends[i].id);
                let sets = Seq::new(
                    surrounding_groups.len() as nat,
                    |i: int| surrounding_groups[i]@.points,
                );
                assert forall|i: int| 0 <= i < ids.len() implies board.is_friend(
                    cell,
                    colour,
                    #[trigger] ids[i],
                ) && sets[i] == board.groups[ids[i]].points by {
                    assert(surrounding_groups[i] == friends[i]);
                    assert(self.shown_friend(set![cell], colour, friends[i].id));
                    assert(board.groups.contains_key(friends[i].id));
                    assert(friends[i].id != counter);
                    assert(seeded_map[friends[i].id] == start_map[friends[i].id]);
                }
                assert forall|g: usize| board.is_friend(cell, colour, g) implies ids.contains(
                    g,
                ) by {
                    assert(self.shown_friend(set![cell], colour, g));
                    let i = choose|i: int| 0 <= i < friends.len() && (#[trigger] friends[i]).id == g;
                    assert(ids[i] == g);
                }
                crate::board_view::lemma_merge_covers(board, cell, colour, ids, sets);
                assert(board.is_friend(cell, colour, ids[0]));
                assert(surrounding_groups[0] == friends[0]);
                assert(board.groups.contains_key(ids[0]));
                assert(seeded_map[ids[0]] == start_map[ids[0]]);
            }
            let cells = cells_of(&merged_group.points);
            let ghost start = self.groups@;
            let mut i: usize = 0;
            while i < cells.len()
                invariant
                    i <= cells.len(),
                    self.groups@.len() == start.len() <= usize::MAX,
                    self.group_map@ == seeded_map,
                    self.grid == old(self).grid,
                    self.group_counter == old(self).group_counter,
                    cells@.to_set() == merged,
                    forall|p: usize| #[trigger] merged.contains(p) ==> p < start.len(),
                    forall|c: int|
                        0 <= c < start.len() ==> #[trigger] self.groups@[c] == (if cells@.take(
                            i as int,
                        ).contains(c as usize) {
                            Some(counter)
                        } else {
                            start[c]
                        }),
                decreases cells.len() - i,
            {
                let point: usize = cells[i];
                assert(cells@.to_set().contains(point));
                self.groups.set(point, Some(counter));
                proof {
                    let seen = cells@.take(i as int);
                    let next = cells@.take(i + 1);
                    assert(next =~= seen.push(point));
                    assert forall|c: int| 0 <= c < start.len() implies #[trigger] self.groups@[c]
                        == (if next.contains(c as usize) {
                        Some(counter)
                    } else {
                        start[c]
                    }) by {
                        if c == point {
                            assert(next[i as int] == point);
                        } else {
                            if seen.contains(c as usize) {
                                let k = choose|k: int| 0 <= k < seen.len() && seen[k] == c as usize;
                                assert(next[k] == c as usize);
                            }
                            if next.contains(c as usize) {
                                let k = choose|k: int| 0 <= k < next.len() && next[k] == c as usize;
                                if k < i {
                                    assert(seen[k] == c as usize);
                                }
                            }
                        }
                    }
                }
                i += 1;
            }
            self.group_map.insert(counter, merged_group);
            proof {
                assert(cells@.take(cells.len() as int) =~= cells@);
                assert forall|c: int| 0 <= c < start.len() implies #[trigger] self.groups@[c]
                    == board.placed_owners(cell, colour)[c] by {
                    assert(cells@.contains(c as usize) <==> merged.contains(c as usize));
                }
                assert(self.groups@ =~= board.placed_owners(cell, colour));
                assert(plain_views(self.group_map@) =~= board.placed_groups(cell, colour));
            }
        } else {
            proof {
                assert forall|g: usize| !board.is_friend(cell, colour, g) by {
                    if board.is_friend(cell, colour, g) {
                        assert(self.shown_friend(set![cell], colour, g));
                    }
                }
                crate::board_view::lemma_lone_stone(board, cell, colour);
            }
        }
    }

    /// Places a stone of `colour` on `coordinate` if the point is empty,
    /// and leaves the board as it is if not. The stone joins the groups of
    /// its colour around it. The groups of the other colour next to it are
    /// counted anew, and those without a liberty leave the board. Neither
    /// suicide nor ko is looked for.
    pub fn add_stone(&mut self, coordinate: Coordinate, colour: Colour)
        requires
            old(self).wf(),
            coordinate.on_board(BOARD_SIZE as int),
            colour != Colour::Empty,
            old(self).group_counter < usize::MAX,
        ensures
            final(self).wf(),
            ({
                let cell = coordinate.index_on(BOARD_SIZE as int) as usize;
                if old(self).groups@[cell as int] is Some {
                    &&& final(self).grid == old(self).grid
                    &&& final(self).groups == old(self).groups
                    &&& final(self).group_map == old(self).group_map
                    &&& final(self).group_counter == old(self).group_counter
                } else {
                    &&& final(self).shape() == old(self).shape().cleared(
                        cell,
                        colour,
                        old(self).taken(cell, colour),
                    )
                    &&& forall|g: usize| #[trigger]
                        final(self).group_map@.contains_key(g) ==> final(self).group_map@[g].liberties == old(self).count_after(cell, colour, g)
                    &&& final(self).counted() == with_stone(old(self).counted(), cell, colour)
                }
            }),
    {
        let cell: usize = coordinate.cell_on(BOARD_SIZE).unwrap();
        if !self.check_empty(coordinate) {
            return ;
        }
        let ghost board = self.shape();
        let ghost owners = board.placed_owners(cell, colour);
        let ghost groups = board.placed_groups(cell, colour);
        let ghost grid = colour_grid(owners, groups);
        let ghost gone = self.taken(cell, colour);
        let ghost start_map = self.group_map@;
        proof {
            crate::board_view::lemma_merged_points(board, cell, colour);
            crate::board_view::lemma_placed(board, cell, colour);
        }
        self.place(cell, colour);
        self.group_counter += 1;
        self.reflect_group_to_board();
        let ghost placed_map = self.group_map@;
        let place = Coordinate::Index(cell);
        let adjacent_groups = self.find_groups_to_merge(place, colour.swap_turn());
        proof {
            assert forall|i: int| 0 <= i < adjacent_groups.len() implies self.group_map@.contains_key(
                #[trigger] adjacent_groups[i],
            ) by {
                assert(adjacent_groups@.contains(adjacent_groups[i]));
                let a = choose|a: usize|
                    #![trigger adjacent(BOARD_SIZE, cell, a)]
                    adjacent(BOARD_SIZE, cell, a) && a < owners.len() && owners[a as int] == Some(
                        adjacent_groups[i],
                    ) && groups[adjacent_groups[i]].colour == colour.opponent();
                assert(groups.contains_key(adjacent_groups[i]));
            }
        }
        let listed = copy_ids(&adjacent_groups);
        self.recalculate_liberties(listed);
        let ghost counted_map = self.group_map@;
        let groups_to_remove = self.check_liberties(adjacent_groups);
        proof {
            let pred = |g: usize| counted_map[g].liberties < 1;
            assert(self.grid@ == grid);
            assert forall|g: usize| filed_ids(counted_map, groups_to_remove@).contains(g)
                <==> gone.contains(g) by {
                if filed_ids(counted_map, groups_to_remove@).contains(g) {
                    let k = choose|k: usize|
                        groups_to_remove@.contains(k) && counted_map.contains_key(k)
                            && #[trigger] counted_map[k].id == g;
                    adjacent_groups@.lemma_filter_contains_rev(pred, k);
                    let w = choose|w: int|
                        0 <= w < groups_to_remove@.len() && groups_to_remove@[w] == k;
                    adjacent_groups@.lemma_filter_pred(pred, w);
                    assert(groups.contains_key(k));
                    assert(counted_map[k]@ == recounted(placed_map[k]@, grid));
                    lemma_group_is_counted(groups[k].points, grid);
                }
                if gone.contains(g) {
                    assert(adjacent_groups@.contains(g));
                    assert(groups.contains_key(g)) by {
                        let a = choose|a: usize|
                            #![trigger adjacent(BOARD_SIZE, cell, a)]
                            adjacent(BOARD_SIZE, cell, a) && a < owners.len() && owners[a as int]
                                == Some(g) && groups[g].colour == colour.opponent();
                    }
                    assert(counted_map[g]@ == recounted(placed_map[g]@, grid));
                    lemma_group_is_counted(groups[g].points, grid);
                    assert(pred(g));
                    let w = choose|w: int|
                        0 <= w < adjacent_groups@.len() && adjacent_groups@[w] == g;
                    adjacent_groups@.lemma_filter_contains(pred, w);
                    assert(groups_to_remove@.contains(g));
                    assert(counted_map[g].id == g);
                }
            }
            assert(filed_ids(counted_map, groups_to_remove@) =~= gone);
            assert(!gone.contains(board.counter));
            crate::board_view::lemma_cleared_shape(board, cell, colour, gone);
        }
        self.remove_groups(groups_to_remove);
        self.clean_map();
        proof {
            assert(plain_views(self.group_map@) =~= board.cleared(cell, colour, gone).groups);
        }
        self.reflect_group_to_board();
        proof {
            assert(self.shape() == board.cleared(cell, colour, gone));
            assert forall|g: usize| #[trigger]
                self.group_map@.contains_key(g) implies self.group_map@[g].liberties == old(self).count_after(cell, colour, g) by {
                assert(counted_map.contains_key(g));
                assert(self.group_map@[g] == counted_map[g]);
                if adjacent_groups@.contains(g) {
                    lemma_group_is_counted(groups[g].points, grid);
                    assert(g != board.counter);
                }
            }
            assert(self.counted().counts =~= with_stone(old(self).counted(), cell, colour).counts);
        }
    }

    /// Whether `cell` lies outside `points`, shows `colour` on the grid of
    /// colours, and is owned by group `g`, a group of colour `colour`.
    pub open spec fn shown_friend_at(
        &self,
        points: Set<usize>,
        colour: Colour,
        cell: usize,
        g: usize,
    ) -> bool {
        &&& self.grid@[cell as int] == colour
        &&& friend_at(self.groups@, plain_views(self.group_map@), points, colour, cell, g)
    }

    /// Whether group `g` has colour `colour` and owns a cell that shows
    /// `colour` and touches the stones at `points` from outside.
    pub open spec fn shown_friend(&self, points: Set<usize>, colour: Colour, g: usize) -> bool {
        exists|p: usize, a: usize|
            #![trigger points.contains(p), adjacent(BOARD_SIZE, p, a)]
            points.contains(p) && adjacent(BOARD_SIZE, p, a) && self.shown_friend_at(
                points,
                colour,
                a,
                g,
            )
    }

    /// `initial_group`, followed by the groups filed under `ids`, in their
    /// order.
    pub fn get_groups_to_merge<'a>(&'a self, initial_group: &'a NewGroup, ids: Vec<usize>) -> (all:
        Vec<&'a NewGroup>)
        requires
            forall|i: int| 0 <= i < ids.len() ==> self.group_map@.contains_key(#[trigger] ids[i]),
        ensures
            all.len() == ids.len() + 1,
            *all[0] == *initial_group,
            forall|i: int| 0 <= i < ids.len() ==> *(#[trigger] all[i + 1]) == self.group_map@[ids[i]],
    {
        let mut groups: Vec<&NewGroup> = Vec::new();
        groups.push(initial_group);
        let mut i: usize = 0;
        while i < ids.len()
            invariant
                i <= ids.len(),
                groups.len() == i + 1,
                *groups[0] == *initial_group,
                forall|k: int|
                    0 <= k < ids.len() ==> self.group_map@.contains_key(#[trigger] ids[k]),
                forall|k: int| 0 <= k < i ==> *(#[trigger] groups[k + 1]) == self.group_map@[ids[k]],
            decreases ids.len() - i,
        {
            let id: usize = ids[i];
            let ghost before = groups@;
            groups.push(self.group_map.get(&id).unwrap());
            proof {
                assert(forall|k: int| 0 <= k < before.len() ==> groups@[k] == before[k]);
                assert forall|k: int| 0 <= k < i + 1 implies *(#[trigger] groups[k + 1])
                    == self.group_map@[ids[k]] by {
                    if k < i {
                        assert(*before[k + 1] == self.group_map@[ids[k]]);
                    }
                }
            }
            i += 1;
        }
        groups
    }
}

impl Clone for NewBoard {
    fn clone(&self) -> (copy: Self)
        ensures
            copy.grid@ == self.grid@,
            copy.groups@ == self.groups@,
            copy.group_map@ == self.group_map@,
            copy.group_counter == self.group_counter,
    {
        let mut grid: Vec<Colour> = Vec::new();
        let mut i: usize = 0;
        while i < self.grid.len()
            invariant
                i <= self.grid.len(),
                grid@ == self.grid@.take(i as int),
            decreases self.grid.len() - i,
        {
            grid.push(self.grid[i]);
            assert(self.grid@.take(i + 1) =~= self.grid@.take(i as int).push(self.grid@[i as int]));
            i += 1;
        }
        assert(self.grid@.take(self.grid.len() as int) =~= self.grid@);
        NewBoard {
            grid,
            group_map: self.group_map.clone(),
            groups: crate::board_state::copy_owners(&self.groups),
            group_counter: self.group_counter,
        }
    }
}

} // verus!
