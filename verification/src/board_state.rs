//! The board: a persistent value that a move turns into a new one.

use vstd::prelude::*;
use vstd::std_specs::hash::*;
use vstd::std_specs::iter::IteratorSpec;
use std::collections::{HashMap, HashSet};
use crate::board_view::{coherent, colour_at, colour_grid, doomed, enemy_at, friend_at, linked,
    referenced_ids, touches_enemy, touches_friend, views_of, without, BoardView};
use crate::colour::Colour;
use crate::coordinate::Coordinate;
use crate::fails::TurnErrors;
use crate::geometry::{adjacent, cell_count, lemma_adjacent_symmetric,
    neighbour_cells, neighbours};
use crate::group_state::{touching_pairs, GroupState};
use crate::zobrist::ZobristTable;

verus! {

broadcast use vstd::std_specs::hash::group_hash_axioms;

/// A position together with what ko detection needs of the game's past.
#[derive(Debug)]
pub struct BoardState {
    pub size: usize,
    /// For each cell, the id of the group that holds it.
    pub groups: Vec<Option<usize>>,
    pub group_map: HashMap<usize, GroupState>,
    /// The id that the next group will get.
    pub group_counter: usize,
    pub zobrist_table: ZobristTable,
}

impl View for BoardState {
    type V = BoardView;

    open spec fn view(&self) -> BoardView {
        BoardView {
            size: self.size,
            owners: self.groups@,
            groups: views_of(self.group_map@),
            counter: self.group_counter,
            keys: self.zobrist_table@.keys,
            visited: self.zobrist_table@.visited,
        }
    }
}

/// The keys of `map`, each once.
pub fn keys_of<V>(map: &HashMap<usize, V>) -> (keys: Vec<usize>)
    ensures
        keys@.no_duplicates(),
        keys@.to_set() == map@.dom(),
{
    let mut out: Vec<usize> = Vec::new();
    for k in it: map.keys()
        invariant
            out@.len() == it.index(),
            forall|j: int| 0 <= j < out@.len() ==> out@[j] == *it.seq()[j],
            it.seq() == spec_keys_iter(map).remaining(),
    {
        out.push(*k);
    }
    proof {
        let rem = spec_keys_iter(map).remaining();
        assert(out@ =~= rem.unref());
    }
    out
}

/// A grid of owners equal to `owners`.
pub fn copy_owners(owners: &Vec<Option<usize>>) -> (copy: Vec<Option<usize>>)
    ensures
        copy@ == owners@,
{
    let mut copy: Vec<Option<usize>> = Vec::new();
    let mut i: usize = 0;
    while i < owners.len()
        invariant
            i <= owners.len(),
            copy@ == owners@.take(i as int),
        decreases owners.len() - i,
    {
        copy.push(owners[i]);
        assert(owners@.take(i + 1) =~= owners@.take(i as int).push(owners@[i as int]));
        i += 1;
    }
    assert(owners@.take(owners.len() as int) =~= owners@);
    copy
}

impl BoardState {
    /// The invariant that every board made by this module keeps.
    pub open spec fn wf(&self) -> bool {
        self@.wf()
    }

    /// The part of the invariant that speaks of the stones alone: the grid
    /// of owners and the map of groups describe each other. It is all that
    /// reading the board needs; the history counts only for placing stones.
    pub open spec fn shape_wf(&self) -> bool {
        self@.shape_wf()
    }

    /// An empty board of side `size`, with fresh Zobrist keys.
    pub fn new(size: usize) -> (board: Self)
        requires
            cell_count(size) <= usize::MAX,
        ensures
            board.wf(),
            board@.is_fresh(size),
    {
        let cells: usize = size * size;
        let mut groups: Vec<Option<usize>> = Vec::new();
        let mut i: usize = 0;
        while i < cells
            invariant
                i <= cells,
                groups.len() == i,
                forall|k: int| 0 <= k < i ==> groups@[k] == None::<usize>,
            decreases cells - i,
        {
            groups.push(None);
            i += 1;
        }
        let board = BoardState {
            size,
            groups,
            group_map: HashMap::new(),
            group_counter: 0,
            zobrist_table: ZobristTable::new(size),
        };
        proof {
            assert(board@.owners =~= Seq::new(cell_count(size) as nat, |cell: int| None::<usize>));
            assert(board@.groups =~= Map::<usize, crate::group_state::GroupView>::empty());
        }
        board
    }

    /// The colours that a grid of owners and a map of groups stand for.
    pub fn generate_grid_from_groups(
        groups: &Vec<Option<usize>>,
        map: &HashMap<usize, GroupState>,
        size: usize,
    ) -> (grid: Vec<Colour>)
        requires
            groups.len() == cell_count(size),
            linked(groups@, views_of(map@)),
        ensures
            grid@ == colour_grid(groups@, views_of(map@)),
    {
        let mut grid: Vec<Colour> = Vec::new();
        let mut cell: usize = 0;
        while cell < groups.len()
            invariant
                cell <= groups.len(),
                grid.len() == cell,
                linked(groups@, views_of(map@)),
                forall|k: int|
                    0 <= k < cell ==> grid@[k] == colour_at(groups@, views_of(map@), k),
            decreases groups.len() - cell,
        {
            match groups[cell] {
                Some(group_id) => {
                    assert(views_of(map@).contains_key(group_id));
                    let group = map.get(&group_id).unwrap();
                    grid.push(group.colour);
                },
                None => {
                    grid.push(Colour::Empty);
                },
            }
            cell += 1;
        }
        assert(grid@ =~= colour_grid(groups@, views_of(map@)));
        grid
    }

    /// The board as a grid of colours.
    pub fn get_grid(&self) -> (grid: Vec<Colour>)
        requires
            self.shape_wf(),
        ensures
            grid@ == self@.grid(),
    {
        BoardState::generate_grid_from_groups(&self.groups, &self.group_map, self.size)
    }

    /// The grid of owners with every cell of a group in `groups_to_remove`
    /// emptied.
    pub fn remove_groups(groups: &Vec<Option<usize>>, groups_to_remove: Vec<usize>) -> (kept: Vec<
        Option<usize>,
    >)
        ensures
            kept@ == without(groups@, groups_to_remove@.to_set()),
    {
        let mut ids: HashSet<usize> = HashSet::new();
        let mut i: usize = 0;
        while i < groups_to_remove.len()
            invariant
                i <= groups_to_remove.len(),
                ids@ == groups_to_remove@.take(i as int).to_set(),
            decreases groups_to_remove.len() - i,
        {
            ids.insert(groups_to_remove[i]);
            proof {
                let next = groups_to_remove@.take(i + 1);
                let before = groups_to_remove@.take(i as int);
                assert(next =~= before.push(groups_to_remove@[i as int]));
                assert forall|g: usize| ids@.contains(g) <==> next.to_set().contains(g) by {
                    if before.to_set().contains(g) {
                        let k = choose|k: int| 0 <= k < before.len() && before[k] == g;
                        assert(next[k] == g);
                    }
                    if next.to_set().contains(g) {
                        let k = choose|k: int| 0 <= k < next.len() && next[k] == g;
                        if k < i {
                            assert(before[k] == g);
                        }
                    }
                    if g == groups_to_remove@[i as int] {
                        assert(next[i as int] == g);
                    }
                }
                assert(ids@ =~= next.to_set());
            }
            i += 1;
        }
        assert(groups_to_remove@.take(groups_to_remove.len() as int) =~= groups_to_remove@);
        let mut kept: Vec<Option<usize>> = Vec::new();
        let mut cell: usize = 0;
        while cell < groups.len()
            invariant
                cell <= groups.len(),
                kept.len() == cell,
                ids@ == groups_to_remove@.to_set(),
                forall|k: int| 0 <= k < cell ==> kept@[k] == without(groups@, ids@)[k],
            decreases groups.len() - cell,
        {
            match groups[cell] {
                Some(id) => {
                    if ids.contains(&id) {
                        kept.push(None);
                    } else {
                        kept.push(Some(id));
                    }
                },
                None => {
                    kept.push(None);
                },
            }
            cell += 1;
        }
        assert(kept@ =~= without(groups@, ids@));
        kept
    }

    /// The grid of owners and the map of groups once a stone of `colour`
    /// stands on the empty cell `cell` and has joined the groups of its
    /// colour around it.
    fn place_stone(&self, cell: usize, colour: Colour) -> (placed: (
        Vec<Option<usize>>,
        HashMap<usize, GroupState>,
    ))
        requires
            self.wf(),
            cell < self.groups.len(),
            self.groups@[cell as int] is None,
        ensures
            placed.0@ == self@.placed_owners(cell, colour),
            views_of(placed.1@) == self@.placed_groups(cell, colour),
    {
        let counter: usize = self.group_counter;
        let place = Coordinate::Index(cell);
        let ghost merged = self@.merged_points(cell, colour);
        proof {
            self.lemma_size_fits();
            crate::board_view::lemma_merged_points(self@, cell, colour);
            crate::board_view::lemma_seeded(self@, cell, colour);
        }
        let mut new_group_map = self.group_map.clone();
        let mut new_groups = copy_owners(&self.groups);

        let new_group = GroupState::new(counter, colour, place);
        new_group_map.insert(counter, new_group.clone());
        new_groups.set(cell, Some(counter));
        assert(new_groups@ == self@.seeded_owners(cell));
        assert(views_of(new_group_map@) =~= self@.seeded_groups(cell, colour));
        let mut surrounding_groups = BoardState::find_adjacent_groups(
            &new_groups,
            &new_group_map,
            place,
            colour,
            self.size,
        );

        if !surrounding_groups.is_empty() {
            let ghost friends = surrounding_groups@;
            surrounding_groups.push(&new_group);
            let merged_group = GroupState::merge_groups(counter, &surrounding_groups);
            proof {
                let ids = Seq::new(friends.len(), |i: int| friends[i].id);
                let sets = Seq::new(
                    surrounding_groups.len() as nat,
                    |i: int| surrounding_groups[i]@.points,
                );
                assert forall|i: int| 0 <= i < ids.len() implies self@.is_friend(
                    cell,
                    colour,
                    #[trigger] ids[i],
                ) && sets[i] == self@.groups[ids[i]].points by {
                    assert(surrounding_groups[i] == friends[i]);
                    assert(self@.groups.contains_key(friends[i].id));
                }
                assert forall|g: usize| self@.is_friend(cell, colour, g) implies ids.contains(
                    g,
                ) by {
                    let i = choose|i: int| 0 <= i < friends.len() && (#[trigger] friends[i]).id == g;
                    assert(ids[i] == g);
                }
                crate::board_view::lemma_merge_covers(self@, cell, colour, ids, sets);
                assert(self@.is_friend(cell, colour, ids[0]));
                assert(surrounding_groups[0] == friends[0]);
            }
            let cells = crate::group_state::cells_of(&merged_group.points);
            let ghost start = new_groups@;
            let mut i: usize = 0;
            while i < cells.len()
                invariant
                    i <= cells.len(),
                    new_groups@.len() == start.len() <= usize::MAX,
                    cells@.to_set() == merged,
                    forall|p: usize| #[trigger] merged.contains(p) ==> p < start.len(),
                    forall|c: int|
                        0 <= c < start.len() ==> #[trigger] new_groups@[c] == (if cells@.take(
                            i as int,
                        ).contains(c as usize) {
                            Some(counter)
                        } else {
                            start[c]
                        }),
                decreases cells.len() - i,
            {
                let point: usize = cells[i];
                assert(cells@.to_set().contains(point));
                new_groups.set(point, Some(counter));
                proof {
                    let seen = cells@.take(i as int);
                    let next = cells@.take(i + 1);
                    assert(next =~= seen.push(point));
                    assert forall|c: int| 0 <= c < start.len() implies #[trigger] new_groups@[c]
                        == (if next.contains(c as usize) {
                        Some(counter)
                    } else {
                        start[c]
                    }) by {
                        if c == point {
                            assert(next[i as int] == point);
                        } else {
                            if seen.contains(c as usize) {
                                let k = choose|k: int| 0 <= k < seen.len() && seen[k] == c as usize;
                                assert(next[k] == c as usize);
                            }
                            if next.contains(c as usize) {
                                let k = choose|k: int| 0 <= k < next.len() && next[k] == c as usize;
                                if k < i {
                                    assert(seen[k] == c as usize);
                                }
                            }
                        }
                    }
                }
                i += 1;
            }
            new_group_map.insert(counter, merged_group);
            proof {
                assert(cells@.take(cells.len() as int) =~= cells@);
                assert forall|c: int| 0 <= c < start.len() implies #[trigger] new_groups@[c]
                    == self@.placed_owners(cell, colour)[c] by {
                    assert(cells@.contains(c as usize) <==> merged.contains(c as usize));
                }
                assert(new_groups@ =~= self@.placed_owners(cell, colour));
                assert(views_of(new_group_map@) =~= self@.placed_groups(cell, colour));
            }
        } else {
            proof {
                assert forall|g: usize| !self@.is_friend(cell, colour, g) by {
                    if self@.is_friend(cell, colour, g) {
                        assert(touches_friend(
                            new_groups@,
                            views_of(new_group_map@),
                            self.size,
                            set![cell],
                            colour,
                            g,
                        ));
                    }
                }
                crate::board_view::lemma_lone_stone(self@, cell, colour);
            }
        }
        (new_groups, new_group_map)
    }

    /// Places a stone of `colour` on `coordinate`. The board itself is left
    /// as it is: a legal move gives a new board, an illegal one the rule that
    /// forbids it.
    pub fn add_stone(&self, coordinate: Coordinate, colour: Colour) -> (result: Result<
        BoardState,
        TurnErrors,
    >)
        requires
            self.wf(),
        ensures
            match result {
                Ok(board) => board.wf() && self@.add_stone(coordinate, colour) == Ok::<
                    BoardView,
                    TurnErrors,
                >(board@),
                Err(error) => self@.add_stone(coordinate, colour) == Err::<BoardView, TurnErrors>(
                    error,
                ),
            },
    {
        proof {
            self.lemma_size_fits();
        }
        let cell: usize = match coordinate.cell_on(self.size) {
            Some(cell) => cell,
            None => {
                return Err(TurnErrors::OutofBounds);
            },
        };
        let place = Coordinate::Index(cell);
        if !self.check_empty(place) {
            return Err(TurnErrors::AlreadyPlaced);
        }
        let counter: usize = self.group_counter;
        let ghost merged = self@.merged_points(cell, colour);
        let (new_groups, new_group_map) = self.place_stone(cell, colour);
        proof {
            crate::board_view::lemma_merged_points(self@, cell, colour);
            crate::board_view::lemma_placed(self@, cell, colour);
        }
        let (new_groups, flag) = BoardState::check_opposing_adjacent_liberties(
            &new_groups,
            &new_group_map,
            self.size,
            place,
        );
        proof {
            let gone = Set::new(
                |g: usize|
                    doomed(
                        self@.placed_owners(cell, colour),
                        self@.placed_groups(cell, colour),
                        self.size,
                        merged,
                        colour,
                        g,
                    ),
            );
            assert(self@.placed_owners(cell, colour)[cell as int] == Some(counter));
            assert(self@.placed_groups(cell, colour)[counter].points == merged);
            assert(flag == (forall|g: usize| !gone.contains(g)));
            assert(gone =~= self@.captured(cell, colour));
            assert(new_groups@ == self@.settled_owners(cell, colour));
            if flag {
                assert forall|g: usize| !self@.captures(cell, colour, g) by {
                    assert(!gone.contains(g));
                }
            } else {
                let g = choose|g: usize| gone.contains(g);
                assert(self@.captures(cell, colour, g));
            }
            assert forall|c: int| 0 <= c < new_groups@.len() implies (
            #[trigger] new_groups@[c] matches Some(g) ==> views_of(new_group_map@).contains_key(
                g,
            )) by {
                if let Some(g) = new_groups@[c] {
                    assert(self@.placed_owners(cell, colour)[c] == Some(g));
                }
            }
        }

        let final_grid = BoardState::generate_grid_from_groups(
            &new_groups,
            &new_group_map,
            self.size,
        );

        assert(final_grid@ == self@.settled_grid(cell, colour));
        assert(flag == (forall|g: usize| !self@.captures(cell, colour, g)));

        if flag {
            assert(new_groups@[cell as int] == Some(counter));
            let final_group = new_group_map.get(&new_groups[cell].unwrap()).unwrap();
            assert(final_group@.points == merged);
            if !final_group.check_liberties(&final_grid, self.size) {
                return Err(TurnErrors::Suicide);
            }
        }

        if self.zobrist_table.contains_position(final_grid.as_slice()) {
            return Err(TurnErrors::Ko);
        }
        let mut new_zobrist_table = self.zobrist_table.clone();
        new_zobrist_table.insert_position(final_grid.as_slice());
        let final_group_map = BoardState::clean_map(new_group_map, &new_groups);
        proof {
            assert(spec_hash_set_len(&new_zobrist_table.visited)
                == new_zobrist_table.visited@.len());
            crate::board_view::lemma_after_wf(self@, cell, colour);
            assert(views_of(final_group_map@) =~= self@.after(cell, colour).groups);
        }
        let board = BoardState {
            size: self.size,
            groups: new_groups,
            group_map: final_group_map,
            group_counter: counter + 1,
            zobrist_table: new_zobrist_table,
        };
        assert(board@ == self@.after(cell, colour));
        Ok(board)
    }

    /// The map without the groups that no cell of `groups` refers to.
    pub fn clean_map(group_map: HashMap<usize, GroupState>, groups: &Vec<Option<usize>>) -> (kept:
        HashMap<usize, GroupState>)
        ensures
            kept@ == group_map@.restrict(referenced_ids(groups@)),
    {
        let mut current: HashSet<usize> = HashSet::new();
        let mut cell: usize = 0;
        while cell < groups.len()
            invariant
                cell <= groups.len(),
                forall|g: usize|
                    current@.contains(g) <==> exists|k: int|
                        0 <= k < cell && #[trigger] groups@[k] == Some(g),
            decreases groups.len() - cell,
        {
            match groups[cell] {
                Some(id) => {
                    current.insert(id);
                },
                None => {},
            }
            cell += 1;
        }
        assert(current@ =~= referenced_ids(groups@));
        let keys = keys_of(&group_map);
        let mut kept = group_map;
        let mut i: usize = 0;
        while i < keys.len()
            invariant
                i <= keys.len(),
                keys@.to_set() == group_map@.dom(),
                current@ == referenced_ids(groups@),
                forall|g: usize|
                    #![trigger kept@.contains_key(g)]
                    kept@.contains_key(g) <==> group_map@.contains_key(g) && (current@.contains(g)
                        || !keys@.take(i as int).contains(g)),
                forall|g: usize| #[trigger] kept@.contains_key(g) ==> kept@[g] == group_map@[g],
            decreases keys.len() - i,
        {
            let key: usize = keys[i];
            let ghost before = kept@;
            if !current.contains(&key) {
                kept.remove(&key);
                assert(kept@ == before.remove(key));
            }
            proof {
                let seen = keys@.take(i as int);
                let next = keys@.take(i + 1);
                assert(next =~= seen.push(key));
                assert(keys@.to_set().contains(key));
                assert forall|g: usize|
                    #![trigger kept@.contains_key(g)]
                    kept@.contains_key(g) <==> group_map@.contains_key(g) && (current@.contains(g)
                        || !next.contains(g)) by {
                    if g == key {
                        assert(next[i as int] == key);
                    } else {
                        if seen.contains(g) {
                            let k = choose|k: int| 0 <= k < seen.len() && seen[k] == g;
                            assert(next[k] == g);
                        }
                        if next.contains(g) {
                            let k = choose|k: int| 0 <= k < next.len() && next[k] == g;
                            assert(seen[k] == g);
                        }
                    }
                }
            }
            i += 1;
        }
        proof {
            assert(keys@.take(keys.len() as int) =~= keys@);
            assert forall|g: usize| #[trigger]
                kept@.contains_key(g) <==> group_map@.contains_key(g) && referenced_ids(
                    groups@,
                ).contains(g) by {
                if group_map@.contains_key(g) {
                    assert(keys@.to_set().contains(g));
                }
            }
            assert(kept@ =~= group_map@.restrict(referenced_ids(groups@)));
        }
        kept
    }

    /// A board's cells can be counted by a machine integer.
    pub proof fn lemma_size_fits(&self)
        requires
            self.shape_wf(),
        ensures
            self.groups@.len() == cell_count(self.size),
            self.size * self.size <= usize::MAX,
    {
        assert(self.groups.len() <= usize::MAX);
    }

    /// The points that touch `coordinate` on a board of side `size`, in the
    /// order above, left, below, right.
    pub fn get_adjacent_indices(size: usize, coordinate: Coordinate) -> (indices: Vec<Coordinate>)
        requires
            cell_count(size) <= usize::MAX,
            coordinate.on_board(size as int),
        ensures
            indices@ == neighbours(size, coordinate.index_on(size as int) as usize).map_values(
                |cell: usize| Coordinate::Index(cell),
            ),
    {
        let cell: usize = coordinate.cell_on(size).unwrap();
        let cells = neighbour_cells(size, cell);
        let mut indices: Vec<Coordinate> = Vec::new();
        let mut i: usize = 0;
        while i < cells.len()
            invariant
                i <= cells.len(),
                indices.len() == i,
                forall|k: int| 0 <= k < i ==> indices@[k] == Coordinate::Index(cells@[k]),
            decreases cells.len() - i,
        {
            indices.push(Coordinate::Index(cells[i]));
            i += 1;
        }
        assert(indices@ =~= cells@.map_values(|cell: usize| Coordinate::Index(cell)));
        indices
    }

    /// The groups of colour `group_colour` that touch, from outside, the
    /// group that holds `coordinate`: each once, in no particular order.
    pub fn find_adjacent_groups<'a>(
        groups: &'a Vec<Option<usize>>,
        group_map: &'a HashMap<usize, GroupState>,
        coordinate: Coordinate,
        group_colour: Colour,
        size: usize,
    ) -> (found: Vec<&'a GroupState>)
        requires
            coherent(groups@, views_of(group_map@), size),
            coordinate.on_board(size as int),
            groups@[coordinate.index_on(size as int)] is Some,
        ensures
            ({
                let views = views_of(group_map@);
                let own = views[groups@[coordinate.index_on(size as int)]->Some_0].points;
                &&& forall|i: int|
                    0 <= i < found.len() ==> {
                        &&& group_map@.contains_key((#[trigger] found[i]).id)
                        &&& *found[i] == group_map@[found[i].id]
                        &&& touches_friend(groups@, views, size, own, group_colour, found[i].id)
                    }
                &&& forall|i: int, j: int|
                    0 <= i < j < found.len() ==> found[i].id != found[j].id
                &&& forall|g: usize|
                    touches_friend(groups@, views, size, own, group_colour, g) ==> exists|i: int|
                        0 <= i < found.len() && (#[trigger] found[i]).id == g
            }),
    {
        assert(groups.len() == cell_count(size));
        let cell: usize = coordinate.cell_on(size).unwrap();
        let group_id: usize = groups[cell].unwrap();
        let ghost views = views_of(group_map@);
        assert(views.contains_key(group_id));
        let group = group_map.get(&group_id).unwrap();
        let ghost own = group.points@;
        assert(own == views[group_id].points);
        assert forall|p: usize| #[trigger] own.contains(p) implies p < cell_count(size) by {
            assert(views[group_id].points.contains(p));
        }
        let pairs = touching_pairs(&group.points, size);
        let mut seen: HashSet<usize> = HashSet::new();
        let mut found: Vec<&GroupState> = Vec::new();
        let mut i: usize = 0;
        while i < pairs.len()
            invariant
                i <= pairs.len(),
                views == views_of(group_map@),
                coherent(groups@, views, size),
                own == group.points@,
                forall|k: int|
                    0 <= k < pairs.len() ==> own.contains((#[trigger] pairs[k]).0) && adjacent(
                        size,
                        pairs[k].0,
                        pairs[k].1,
                    ),
                forall|k: int|
                    0 <= k < found.len() ==> {
                        &&& group_map@.contains_key((#[trigger] found[k]).id)
                        &&& *found[k] == group_map@[found[k].id]
                        &&& touches_friend(groups@, views, size, own, group_colour, found[k].id)
                        &&& seen@.contains(found[k].id)
                    },
                forall|k: int, j: int| 0 <= k < j < found.len() ==> found[k].id != found[j].id,
                forall|g: usize|
                    seen@.contains(g) ==> exists|k: int|
                        0 <= k < found.len() && (#[trigger] found[k]).id == g,
                forall|w: int, g: usize|
                    #![trigger friend_at(groups@, views, own, group_colour, pairs[w].1, g)]
                    0 <= w < i && friend_at(
                        groups@,
                        views,
                        own,
                        group_colour,
                        pairs[w].1,
                        g,
                    ) ==> seen@.contains(g),
            decreases pairs.len() - i,
        {
            let stone: usize = pairs[i].0;
            let near: usize = pairs[i].1;
            proof {
                lemma_adjacent_symmetric(size, stone, near);
            }
            if !group.points.contains(&near) {
                if let Some(id) = groups[near] {
                    assert(views.contains_key(id));
                    if let Some(data) = group_map.get(&id) {
                        if data.colour == group_colour {
                            assert(friend_at(groups@, views, own, group_colour, near, id));
                            assert(own.contains(stone) && adjacent(size, stone, near));
                            assert(touches_friend(groups@, views, size, own, group_colour, id));
                            assert(views[id].id == id);
                            if seen.insert(id) {
                                let ghost before = found@;
                                found.push(data);
                                assert(forall|k: int|
                                    0 <= k < before.len() ==> found@[k] == before[k]);
                                assert forall|g: usize| seen@.contains(g) implies exists|k: int|
                                    0 <= k < found.len() && (#[trigger] found[k]).id == g by {
                                    if g == id {
                                        assert(found[found.len() - 1].id == g);
                                    } else {
                                        let k = choose|k: int|
                                            0 <= k < before.len() && (#[trigger] before[k]).id
                                                == g;
                                        assert(found[k].id == g);
                                    }
                                }
                            }
                        }
                    }
                }
            }
            i += 1;
        }
        proof {
            assert forall|g: usize|
                touches_friend(groups@, views, size, own, group_colour, g) implies exists|i: int|
                0 <= i < found.len() && (#[trigger] found[i]).id == g by {
                let (p, a) = choose|p: usize, a: usize|
                    #![trigger own.contains(p), adjacent(size, p, a)]
                    own.contains(p) && adjacent(size, p, a) && friend_at(
                        groups@,
                        views,
                        own,
                        group_colour,
                        a,
                        g,
                    );
                assert(pairs@.contains((p, a)));
                let w = choose|w: int| 0 <= w < pairs@.len() && pairs@[w] == (p, a);
                assert(pairs[w].1 == a);
                assert(seen@.contains(g));
            }
        }
        found
    }

    /// Takes off the board every group of another colour that touches the
    /// group at `position` and has no liberty left. Returns the new grid of
    /// owners, and whether nothing was taken off.
    pub fn check_opposing_adjacent_liberties(
        total_groups: &Vec<Option<usize>>,
        map: &HashMap<usize, GroupState>,
        size: usize,
        position: Coordinate,
    ) -> (result: (Vec<Option<usize>>, bool))
        requires
            coherent(total_groups@, views_of(map@), size),
            position.on_board(size as int),
            total_groups@[position.index_on(size as int)] is Some,
        ensures
            ({
                let views = views_of(map@);
                let own = views[total_groups@[position.index_on(size as int)]->Some_0];
                let gone = Set::new(
                    |g: usize| doomed(total_groups@, views, size, own.points, own.colour, g),
                );
                &&& result.0@ == without(total_groups@, gone)
                &&& result.1 == (forall|g: usize| !gone.contains(g))
            }),
    {
        assert(total_groups.len() == cell_count(size));
        let cell: usize = position.cell_on(size).unwrap();
        let id: usize = total_groups[cell].unwrap();
        let ghost views = views_of(map@);
        assert(views.contains_key(id));
        let group = map.get(&id).unwrap();
        let group_colour = group.colour;
        let ghost own = group.points@;
        assert(own == views[id].points);
        assert forall|p: usize| #[trigger] own.contains(p) implies p < cell_count(size) by {
            assert(views[id].points.contains(p));
        }
        let grid = BoardState::generate_grid_from_groups(total_groups, map, size);
        let pairs = touching_pairs(&group.points, size);
        let mut groups_to_check: Vec<usize> = Vec::new();
        let mut i: usize = 0;
        while i < pairs.len()
            invariant
                i <= pairs.len(),
                views == views_of(map@),
                coherent(total_groups@, views, size),
                own == group.points@,
                forall|k: int|
                    0 <= k < pairs.len() ==> own.contains((#[trigger] pairs[k]).0) && adjacent(
                        size,
                        pairs[k].0,
                        pairs[k].1,
                    ),
                forall|k: int|
                    0 <= k < groups_to_check.len() ==> views.contains_key(
                        #[trigger] groups_to_check[k],
                    ) && touches_enemy(
                        total_groups@,
                        views,
                        size,
                        own,
                        group_colour,
                        groups_to_check[k],
                    ),
                forall|w: int, g: usize|
                    #![trigger enemy_at(total_groups@, views, group_colour, pairs[w].1, g)]
                    0 <= w < i && enemy_at(
                        total_groups@,
                        views,
                        group_colour,
                        pairs[w].1,
                        g,
                    ) ==> groups_to_check@.contains(g),
            decreases pairs.len() - i,
        {
            let stone: usize = pairs[i].0;
            let near: usize = pairs[i].1;
            let ghost before = groups_to_check@;
            proof {
                lemma_adjacent_symmetric(size, stone, near);
            }
            if let Some(group_id) = total_groups[near] {
                assert(views.contains_key(group_id));
                if map.get(&group_id).unwrap().colour != group_colour {
                    assert(enemy_at(total_groups@, views, group_colour, near, group_id));
                    assert(own.contains(stone) && adjacent(size, stone, near));
                    groups_to_check.push(group_id);
                    assert(groups_to_check@[before.len() as int] == group_id);
                }
            }
            proof {
                assert forall|w: int, g: usize|
                    #![trigger enemy_at(total_groups@, views, group_colour, pairs[w].1, g)]
                    0 <= w < i + 1 && enemy_at(
                        total_groups@,
                        views,
                        group_colour,
                        pairs[w].1,
                        g,
                    ) implies groups_to_check@.contains(g) by {
                    if w < i {
                        assert(before.contains(g));
                        let k = choose|k: int| 0 <= k < before.len() && before[k] == g;
                        assert(groups_to_check@[k] == g);
                    } else {
                        assert(groups_to_check@[before.len() as int] == g);
                    }
                }
            }
            i += 1;
        }
        let mut groups_to_remove: Vec<usize> = Vec::new();
        let mut didnt_remove_groups = true;
        let mut j: usize = 0;
        while j < groups_to_check.len()
            invariant
                j <= groups_to_check.len(),
                views == views_of(map@),
                coherent(total_groups@, views, size),
                grid@ == colour_grid(total_groups@, views),
                forall|k: int|
                    0 <= k < groups_to_check.len() ==> views.contains_key(
                        #[trigger] groups_to_check[k],
                    ) && touches_enemy(
                        total_groups@,
                        views,
                        size,
                        own,
                        group_colour,
                        groups_to_check[k],
                    ),
                forall|k: int|
                    0 <= k < groups_to_remove.len() ==> doomed(
                        total_groups@,
                        views,
                        size,
                        own,
                        group_colour,
                        #[trigger] groups_to_remove[k],
                    ),
                forall|w: int|
                    0 <= w < j && doomed(
                        total_groups@,
                        views,
                        size,
                        own,
                        group_colour,
                        #[trigger] groups_to_check[w],
                    ) ==> groups_to_remove@.contains(groups_to_check[w]),
                didnt_remove_groups == (groups_to_remove.len() == 0),
            decreases groups_to_check.len() - j,
        {
            let group_id: usize = groups_to_check[j];
            let ghost before = groups_to_remove@;
            assert(views.contains_key(group_id));
            let other = map.get(&group_id).unwrap();
            assert forall|p: usize| #[trigger] other.points@.contains(p) implies p
                < grid.len() by {
                assert(views[group_id].points.contains(p));
            }
            if !other.check_liberties(&grid, size) {
                groups_to_remove.push(group_id);
                didnt_remove_groups = false;
                assert(groups_to_remove@[before.len() as int] == group_id);
            }
            proof {
                assert forall|w: int|
                    0 <= w < j + 1 && doomed(
                        total_groups@,
                        views,
                        size,
                        own,
                        group_colour,
                        #[trigger] groups_to_check[w],
                    ) implies groups_to_remove@.contains(groups_to_check[w]) by {
                    if w < j {
                        let g = groups_to_check[w];
                        assert(before.contains(g));
                        let k = choose|k: int| 0 <= k < before.len() && before[k] == g;
                        assert(groups_to_remove@[k] == g);
                    } else {
                        assert(groups_to_remove@[before.len() as int] == group_id);
                    }
                }
            }
            j += 1;
        }
        proof {
            let gone = Set::new(
                |g: usize| doomed(total_groups@, views, size, own, group_colour, g),
            );
            assert forall|g: usize| gone.contains(g) implies groups_to_remove@.to_set().contains(
                g,
            ) by {
                let (p, a) = choose|p: usize, a: usize|
                    #![trigger own.contains(p), adjacent(size, p, a)]
                    own.contains(p) && adjacent(size, p, a) && enemy_at(
                        total_groups@,
                        views,
                        group_colour,
                        a,
                        g,
                    );
                assert(pairs@.contains((p, a)));
                let w = choose|w: int| 0 <= w < pairs@.len() && pairs@[w] == (p, a);
                assert(pairs[w].1 == a);
                assert(groups_to_check@.contains(g));
                let k = choose|k: int| 0 <= k < groups_to_check@.len() && groups_to_check@[k] == g;
                assert(doomed(total_groups@, views, size, own, group_colour, groups_to_check[k]));
            }
            assert forall|g: usize| groups_to_remove@.to_set().contains(g) implies gone.contains(
                g,
            ) by {
                let k = choose|k: int|
                    0 <= k < groups_to_remove@.len() && groups_to_remove@[k] == g;
                assert(doomed(total_groups@, views, size, own, group_colour, groups_to_remove[k]));
            }
            assert(groups_to_remove@.to_set() =~= gone);
            if groups_to_remove.len() > 0 {
                assert(groups_to_remove@.to_set().contains(groups_to_remove@[0]));
            }
        }
        (BoardState::remove_groups(total_groups, groups_to_remove), didnt_remove_groups)
    }

    /// The groups that hold a cell of the board, each once, in the order of
    /// their first cells.
    pub fn _get_current_groups(&self) -> (current: Vec<GroupState>)
        requires
            self.shape_wf(),
        ensures
            forall|i: int|
                0 <= i < current.len() ==> self@.groups.contains_key((#[trigger] current[i]).id)
                    && current[i]@ == self@.groups[current[i].id],
            forall|i: int, j: int| 0 <= i < j < current.len() ==> current[i].id != current[j].id,
            forall|g: usize|
                self@.groups.contains_key(g) ==> exists|i: int|
                    0 <= i < current.len() && (#[trigger] current[i]).id == g,
    {
        let ghost views = views_of(self.group_map@);
        let mut seen: HashSet<usize> = HashSet::new();
        let mut current: Vec<GroupState> = Vec::new();
        let mut cell: usize = 0;
        while cell < self.groups.len()
            invariant
                cell <= self.groups.len(),
                views == views_of(self.group_map@),
                self.shape_wf(),
                forall|i: int|
                    0 <= i < current.len() ==> views.contains_key((#[trigger] current[i]).id)
                        && current[i]@ == views[current[i].id] && seen@.contains(current[i].id),
                forall|i: int, j: int|
                    0 <= i < j < current.len() ==> current[i].id != current[j].id,
                forall|g: usize|
                    seen@.contains(g) ==> exists|i: int|
                        0 <= i < current.len() && (#[trigger] current[i]).id == g,
                forall|k: int|
                    0 <= k < cell ==> (#[trigger] self.groups@[k] matches Some(g)
                        ==> seen@.contains(g)),
            decreases self.groups.len() - cell,
        {
            if let Some(key) = self.groups[cell] {
                assert(views.contains_key(key));
                assert(views[key].id == key);
                if let Some(group) = self.group_map.get(&key) {
                    if seen.insert(key) {
                        let ghost before = current@;
                        current.push(group.clone());
                        proof {
                            assert(forall|i: int|
                                0 <= i < before.len() ==> current@[i] == before[i]);
                            assert(current[before.len() as int].id == key);
                            assert forall|g: usize| seen@.contains(g) implies exists|i: int|
                                0 <= i < current.len() && (#[trigger] current[i]).id == g by {
                                if g != key {
                                    let i = choose|i: int|
                                        0 <= i < before.len() && (#[trigger] before[i]).id == g;
                                    assert(current[i].id == g);
                                }
                            }
                        }
                    }
                }
            }
            cell += 1;
        }
        proof {
            assert forall|g: usize| self@.groups.contains_key(g) implies exists|i: int|
                0 <= i < current.len() && (#[trigger] current[i]).id == g by {
                assert(crate::board_view::referenced(self.groups@, g));
                let c = choose|c: int|
                    0 <= c < self.groups@.len() && #[trigger] self.groups@[c] == Some(g);
                assert(seen@.contains(g));
            }
        }
        current
    }

    /// Whether a group with the id of `group` is on the board.
    pub fn _contains(&self, group: &GroupState) -> (found: bool)
        requires
            self.shape_wf(),
        ensures
            found == self@.groups.contains_key(group.id),
    {
        let mut cell: usize = 0;
        while cell < self.groups.len()
            invariant
                cell <= self.groups.len(),
                self.shape_wf(),
                forall|k: int| 0 <= k < cell ==> #[trigger] self.groups@[k] != Some(group.id),
            decreases self.groups.len() - cell,
        {
            if let Some(key) = self.groups[cell] {
                if key == group.id {
                    assert(self@.groups.contains_key(key));
                    return true;
                }
            }
            cell += 1;
        }
        proof {
            if self@.groups.contains_key(group.id) {
                assert(crate::board_view::referenced(self.groups@, group.id));
            }
        }
        false
    }

    /// The group that holds `coordinate`, if a stone stands there.
    pub fn _find_group(&self, coordinate: Coordinate) -> (group: Option<&GroupState>)
        requires
            self.shape_wf(),
            coordinate.on_board(self.size as int),
        ensures
            match self@.owners[coordinate.index_on(self.size as int)] {
                Some(g) => group is Some && group->Some_0@ == self@.groups[g],
                None => group is None,
            },
    {
        proof {
            self.lemma_size_fits();
        }
        let index: usize = coordinate.cell_on(self.size).unwrap();
        if let Some(group_id) = self.groups[index] {
            assert(self@.groups.contains_key(group_id));
            return self.group_map.get(&group_id);
        }
        None
    }

    /// Whether no stone stands on `coordinate`.
    pub fn check_empty(&self, coordinate: Coordinate) -> (empty: bool)
        requires
            self.shape_wf(),
            coordinate.on_board(self.size as int),
        ensures
            empty == (self@.owners[coordinate.index_on(self.size as int)] is None),
    {
        proof {
            self.lemma_size_fits();
        }
        let index: usize = coordinate.cell_on(self.size).unwrap();
        self.groups[index].is_none()
    }

    /// The board that comes of placing the stones of `colours` on `start`,
    /// one after the other in the order of their cells, or the rule that the
    /// first illegal one of them breaks.
    pub fn replay_on(start: BoardState, colours: &[Colour]) -> (result: Result<
        BoardState,
        TurnErrors,
    >)
        requires
            start.wf(),
            colours@.len() <= usize::MAX,
        ensures
            match result {
                Ok(board) => board.wf() && start@.replay(colours@) == Ok::<BoardView, TurnErrors>(
                    board@,
                ),
                Err(error) => start@.replay(colours@) == Err::<BoardView, TurnErrors>(error),
            },
    {
        let ghost first = start@;
        let mut board_state = start;
        let mut i: usize = 0;
        while i < colours.len()
            invariant
                i <= colours@.len(),
                board_state.wf(),
                first == start@,
                first.replay(colours@.take(i as int)) == Ok::<BoardView, TurnErrors>(
                    board_state@,
                ),
            decreases colours.len() - i,
        {
            let colour = colours[i];
            proof {
                assert(colours@.take(i + 1).drop_last() =~= colours@.take(i as int));
                assert(colours@.take(i + 1).last() == colour);
            }
            if colour != Colour::Empty {
                let coordinate = Coordinate::Index(i);
                match board_state.add_stone(coordinate, colour) {
                    Ok(next) => {
                        board_state = next;
                    },
                    Err(error) => {
                        proof {
                            let upto = colours@.take(i + 1);
                            assert(upto.len() - 1 == i);
                            assert(first.replay(upto) == Err::<BoardView, TurnErrors>(error));
                            lemma_replay_fails(first, colours@, i + 1);
                        }
                        return Err(error);
                    },
                }
            }
            i += 1;
        }
        assert(colours@.take(colours@.len() as int) =~= colours@);
        Ok(board_state)
    }

    /// The board that comes of placing the stones of `colours` on an empty
    /// board of side `size`: `replay_on` from a new board. The new board
    /// gets fresh Zobrist keys, so which positions collide is a matter of
    /// chance: the result is stated for the keys that were drawn.
    pub fn from_colours(colours: &[Colour], size: usize) -> (result: Result<Self, TurnErrors>)
        requires
            cell_count(size) <= usize::MAX,
            colours@.len() <= usize::MAX,
        ensures
            exists|start: BoardView|
                start.wf() && start.is_fresh(size) && match result {
                    Ok(board) => board.wf() && #[trigger] start.replay(colours@) == Ok::<
                        BoardView,
                        TurnErrors,
                    >(board@),
                    Err(error) => start.replay(colours@) == Err::<BoardView, TurnErrors>(error),
                },
    {
        let board_state = BoardState::new(size);
        let ghost start = board_state@;
        let result = BoardState::replay_on(board_state, colours);
        proof {
            assert(start.wf() && start.is_fresh(size));
            if result is Ok {
                assert(start.replay(colours@) == Ok::<BoardView, TurnErrors>(result->Ok_0@));
            } else {
                assert(start.replay(colours@) == Err::<BoardView, TurnErrors>(result->Err_0));
            }
        }
        result
    }
}

/// Once a stone of a replay is illegal, the whole replay fails with its
/// error.
pub proof fn lemma_replay_fails(start: BoardView, colours: Seq<Colour>, upto: int)
    requires
        0 <= upto <= colours.len(),
        start.replay(colours.take(upto)) is Err,
    ensures
        start.replay(colours) == start.replay(colours.take(upto)),
    decreases colours.len() - upto,
{
    if upto == colours.len() {
        assert(colours.take(upto) =~= colours);
    } else {
        assert(colours.drop_last().take(upto) =~= colours.take(upto));
        lemma_replay_fails(start, colours.drop_last(), upto);
    }
}

impl Clone for BoardState {
    fn clone(&self) -> (copy: Self)
        ensures
            copy@ == self@,
    {
        BoardState {
            size: self.size,
            groups: copy_owners(&self.groups),
            group_map: self.group_map.clone(),
            group_counter: self.group_counter,
            zobrist_table: self.zobrist_table.clone(),
        }
    }
}

} // verus!
