//! The rules of placing a stone, stated over plain mathematical values.
//!
//! A board is a grid of owners (which group, if any, holds each cell) and a
//! map from group ids to groups. Everything the executable board does is
//! specified here first.

use vstd::prelude::*;
use crate::colour::Colour;
use crate::coordinate::Coordinate;
use crate::fails::TurnErrors;
use crate::geometry::{adjacent, cell_count, has_liberty};
use crate::group_state::{GroupState, GroupView};
use crate::zobrist::hash_of;

verus! {

/// The views of the groups of an executable group map.
pub open spec fn views_of(map: Map<usize, GroupState>) -> Map<usize, GroupView> {
    Map::new(|g: usize| map.contains_key(g), |g: usize| map[g]@)
}

/// The colour that `cell` shows: that of the group that owns it, `Empty` if
/// none does.
pub open spec fn colour_at(
    owners: Seq<Option<usize>>,
    groups: Map<usize, GroupView>,
    cell: int,
) -> Colour {
    match owners[cell] {
        Some(g) => groups[g].colour,
        None => Colour::Empty,
    }
}

/// The board as a grid of colours.
pub open spec fn colour_grid(owners: Seq<Option<usize>>, groups: Map<usize, GroupView>) -> Seq<
    Colour,
> {
    Seq::new(owners.len(), |cell: int| colour_at(owners, groups, cell))
}

/// Whether some cell is owned by group `g`.
pub open spec fn referenced(owners: Seq<Option<usize>>, g: usize) -> bool {
    exists|cell: int| 0 <= cell < owners.len() && #[trigger] owners[cell] == Some(g)
}

/// The ids of the groups that own a cell.
pub open spec fn referenced_ids(owners: Seq<Option<usize>>) -> Set<usize> {
    Set::new(|g: usize| referenced(owners, g))
}

/// Whether every owner is a group of the map.
pub open spec fn linked(owners: Seq<Option<usize>>, groups: Map<usize, GroupView>) -> bool {
    forall|cell: int|
        0 <= cell < owners.len() ==> (#[trigger] owners[cell] matches Some(g)
            ==> groups.contains_key(g))
}

/// What the helpers of a move need of the grid and map that they are given:
/// the grid covers a board of side `size` whose cells a machine integer can
/// count, every owner is in the map, every group is filed under its own id,
/// and its stones stand on the board.
pub open spec fn coherent(
    owners: Seq<Option<usize>>,
    groups: Map<usize, GroupView>,
    size: usize,
) -> bool {
    &&& owners.len() == cell_count(size) <= usize::MAX
    &&& linked(owners, groups)
    &&& forall|g: usize| #[trigger] groups.contains_key(g) ==> groups[g].id == g
    &&& forall|g: usize, p: usize|
        groups.contains_key(g) && #[trigger] groups[g].points.contains(p) ==> p < owners.len()
}

/// Whether group `g` holds exactly the cells that it owns.
pub open spec fn owns_exactly(
    owners: Seq<Option<usize>>,
    groups: Map<usize, GroupView>,
    g: usize,
) -> bool {
    forall|p: usize|
        #![trigger groups[g].points.contains(p)]
        #![trigger owners[p as int]]
        groups[g].points.contains(p) <==> p < owners.len() && owners[p as int] == Some(g)
}

/// Whether `cell` lies outside `points` and is owned by group `g`, a group
/// of colour `colour`.
pub open spec fn friend_at(
    owners: Seq<Option<usize>>,
    groups: Map<usize, GroupView>,
    points: Set<usize>,
    colour: Colour,
    cell: usize,
    g: usize,
) -> bool {
    &&& !points.contains(cell)
    &&& cell < owners.len()
    &&& owners[cell as int] == Some(g)
    &&& groups.contains_key(g)
    &&& groups[g].colour == colour
}

/// Whether group `g` has colour `colour` and owns a cell that touches the
/// stones at `points` from outside.
pub open spec fn touches_friend(
    owners: Seq<Option<usize>>,
    groups: Map<usize, GroupView>,
    size: usize,
    points: Set<usize>,
    colour: Colour,
    g: usize,
) -> bool {
    exists|p: usize, a: usize|
        #![trigger points.contains(p), adjacent(size, p, a)]
        points.contains(p) && adjacent(size, p, a) && friend_at(
            owners,
            groups,
            points,
            colour,
            a,
            g,
        )
}

/// Whether `cell` is owned by group `g`, a group of another colour than
/// `colour`.
pub open spec fn enemy_at(
    owners: Seq<Option<usize>>,
    groups: Map<usize, GroupView>,
    colour: Colour,
    cell: usize,
    g: usize,
) -> bool {
    &&& cell < owners.len()
    &&& owners[cell as int] == Some(g)
    &&& groups[g].colour != colour
}

/// Whether group `g` has another colour than `colour` and owns a cell that
/// touches the stones at `points`.
pub open spec fn touches_enemy(
    owners: Seq<Option<usize>>,
    groups: Map<usize, GroupView>,
    size: usize,
    points: Set<usize>,
    colour: Colour,
    g: usize,
) -> bool {
    exists|p: usize, a: usize|
        #![trigger points.contains(p), adjacent(size, p, a)]
        points.contains(p) && adjacent(size, p, a) && enemy_at(owners, groups, colour, a, g)
}

/// Whether group `g` is captured by the stones at `points`: it touches them,
/// has another colour, and is left without a liberty.
pub open spec fn doomed(
    owners: Seq<Option<usize>>,
    groups: Map<usize, GroupView>,
    size: usize,
    points: Set<usize>,
    colour: Colour,
    g: usize,
) -> bool {
    &&& touches_enemy(owners, groups, size, points, colour, g)
    &&& !has_liberty(groups[g].points, colour_grid(owners, groups), size)
}

/// The grid of owners once the groups in `ids` have left the board.
pub open spec fn without(owners: Seq<Option<usize>>, ids: Set<usize>) -> Seq<Option<usize>> {
    Seq::new(
        owners.len(),
        |cell: int|
            match owners[cell] {
                Some(g) => if ids.contains(g) {
                    None
                } else {
                    Some(g)
                },
                None => None,
            },
    )
}

/// A board with its history, as a mathematical value.
pub struct BoardView {
    /// The side length.
    pub size: usize,
    /// For each cell, the id of the group that holds it.
    pub owners: Seq<Option<usize>>,
    /// The groups on the board, by id.
    pub groups: Map<usize, GroupView>,
    /// The id that the next group will get.
    pub counter: usize,
    /// The Zobrist keys of the cells: Black's, then White's.
    pub keys: Seq<(u64, u64)>,
    /// The hashes of the positions that the game has gone through.
    pub visited: Set<u64>,
}

impl BoardView {
    /// The invariant of the stones on a board: the grid of owners and the
    /// map of groups describe each other. Every group of the map is filed
    /// under an id below the next one, holds exactly the cells that name it
    /// as owner, and holds at least one.
    pub open spec fn shape_wf(self) -> bool {
        &&& coherent(self.owners, self.groups, self.size)
        &&& self.groups.dom().finite()
        &&& forall|g: usize| #[trigger]
            self.groups.contains_key(g) ==> {
                &&& g < self.counter
                &&& owns_exactly(self.owners, self.groups, g)
                &&& referenced(self.owners, g)
            }
    }

    /// The invariant of a board: its stones are well formed, every cell has
    /// its keys, and the board remembers one position for each group that
    /// was ever numbered.
    pub open spec fn wf(self) -> bool {
        &&& self.shape_wf()
        &&& self.keys.len() == self.owners.len()
        &&& self.visited.finite()
        &&& self.visited.len() == self.counter
    }

    /// The board as a grid of colours.
    pub open spec fn grid(self) -> Seq<Colour> {
        colour_grid(self.owners, self.groups)
    }

    /// Whether this is an empty board of side `size` at the start of a game.
    pub open spec fn is_fresh(self, size: usize) -> bool {
        &&& self.size == size
        &&& self.owners == Seq::new(cell_count(size) as nat, |cell: int| None::<usize>)
        &&& self.groups == Map::<usize, GroupView>::empty()
        &&& self.counter == 0
        &&& self.keys.len() == cell_count(size)
        &&& self.visited == Set::<u64>::empty()
    }

    /// What comes of placing the stones of `colours` one after the other, in
    /// the order of their cells: the board after the last of them, or the
    /// rule that the first illegal one breaks.
    pub open spec fn replay(self, colours: Seq<Colour>) -> Result<BoardView, TurnErrors>
        decreases colours.len(),
    {
        if colours.len() == 0 {
            Ok(self)
        } else {
            match self.replay(colours.drop_last()) {
                Err(error) => Err(error),
                Ok(board) => if colours.last() == Colour::Empty {
                    Ok(board)
                } else {
                    board.add_stone(
                        Coordinate::Index((colours.len() - 1) as usize),
                        colours.last(),
                    )
                },
            }
        }
    }

    /// Whether group `g` has colour `colour` and owns a cell next to `cell`.
    pub open spec fn is_friend(self, cell: usize, colour: Colour, g: usize) -> bool {
        touches_friend(self.owners, self.groups, self.size, set![cell], colour, g)
    }

    /// The cells of the group that a stone of `colour` on `cell` belongs to:
    /// the stone's own cell and the cells of every group of its colour next
    /// to it.
    pub open spec fn merged_points(self, cell: usize, colour: Colour) -> Set<usize> {
        Set::new(
            |p: usize|
                p == cell || exists|g: usize|
                    self.is_friend(cell, colour, g) && #[trigger] self.groups[g].points.contains(p),
        )
    }

    /// The owners once the stone stands and its group, under the id
    /// `counter`, has taken over the groups it joins.
    pub open spec fn placed_owners(self, cell: usize, colour: Colour) -> Seq<Option<usize>> {
        Seq::new(
            self.owners.len(),
            |c: int|
                if self.merged_points(cell, colour).contains(c as usize) {
                    Some(self.counter)
                } else {
                    self.owners[c]
                },
        )
    }

    /// The groups once the stone's group is filed. The groups it took over
    /// are still in the map, though no cell refers to them.
    pub open spec fn placed_groups(self, cell: usize, colour: Colour) -> Map<usize, GroupView> {
        self.groups.insert(
            self.counter,
            GroupView { id: self.counter, colour, points: self.merged_points(cell, colour) },
        )
    }

    /// Whether the stone captures group `g`.
    pub open spec fn captures(self, cell: usize, colour: Colour, g: usize) -> bool {
        doomed(
            self.placed_owners(cell, colour),
            self.placed_groups(cell, colour),
            self.size,
            self.merged_points(cell, colour),
            colour,
            g,
        )
    }

    /// The ids of the groups that the stone captures.
    pub open spec fn captured(self, cell: usize, colour: Colour) -> Set<usize> {
        Set::new(|g: usize| self.captures(cell, colour, g))
    }

    /// The stones once the stone stands and the groups in `gone` have left
    /// the board: groups that no cell refers to are dropped, and the next
    /// id moves on. Keys and history are as before.
    pub open spec fn cleared(self, cell: usize, colour: Colour, gone: Set<usize>) -> BoardView {
        BoardView {
            size: self.size,
            owners: without(self.placed_owners(cell, colour), gone),
            groups: self.placed_groups(cell, colour).restrict(
                referenced_ids(without(self.placed_owners(cell, colour), gone)),
            ),
            counter: (self.counter + 1) as usize,
            keys: self.keys,
            visited: self.visited,
        }
    }

    /// The owners once the captured groups have left the board.
    pub open spec fn settled_owners(self, cell: usize, colour: Colour) -> Seq<Option<usize>> {
        without(self.placed_owners(cell, colour), self.captured(cell, colour))
    }

    /// The colours once the captured groups have left the board.
    pub open spec fn settled_grid(self, cell: usize, colour: Colour) -> Seq<Colour> {
        colour_grid(self.settled_owners(cell, colour), self.placed_groups(cell, colour))
    }

    /// Whether the stone would capture nothing and leave its own group
    /// without a liberty.
    pub open spec fn is_suicide(self, cell: usize, colour: Colour) -> bool {
        &&& forall|g: usize| !self.captures(cell, colour, g)
        &&& !has_liberty(
            self.merged_points(cell, colour),
            self.settled_grid(cell, colour),
            self.size,
        )
    }

    /// The hash of the position that the stone would bring about.
    pub open spec fn settled_hash(self, cell: usize, colour: Colour) -> u64 {
        hash_of(self.keys, self.settled_grid(cell, colour))
    }

    /// The board after a legal stone: captured groups are gone, groups that
    /// no cell refers to are dropped, and the new position is remembered.
    pub open spec fn after(self, cell: usize, colour: Colour) -> BoardView {
        BoardView {
            size: self.size,
            owners: self.settled_owners(cell, colour),
            groups: self.placed_groups(cell, colour).restrict(
                referenced_ids(self.settled_owners(cell, colour)),
            ),
            counter: (self.counter + 1) as usize,
            keys: self.keys,
            visited: self.visited.insert(self.settled_hash(cell, colour)),
        }
    }

    /// What placing a stone of `colour` on `coordinate` gives: the new board,
    /// or the first rule that forbids the move.
    pub open spec fn add_stone(self, coordinate: Coordinate, colour: Colour) -> Result<
        BoardView,
        TurnErrors,
    > {
        if !coordinate.on_board(self.size as int) {
            Err(TurnErrors::OutofBounds)
        } else {
            let cell = coordinate.index_on(self.size as int) as usize;
            if self.owners[cell as int] is Some {
                Err(TurnErrors::AlreadyPlaced)
            } else if self.is_suicide(cell, colour) {
                Err(TurnErrors::Suicide)
            } else if self.visited.contains(self.settled_hash(cell, colour)) {
                Err(TurnErrors::Ko)
            } else {
                Ok(self.after(cell, colour))
            }
        }
    }
}

/// Where the stone's group ends up: on the board, on the stone's own cell and
/// on cells that groups of its colour held before.
pub proof fn lemma_merged_points(board: BoardView, cell: usize, colour: Colour)
    requires
        board.shape_wf(),
        cell < board.owners.len(),
        board.owners[cell as int] is None,
    ensures
        board.merged_points(cell, colour).contains(cell),
        forall|p: usize| #[trigger]
            board.merged_points(cell, colour).contains(p) ==> p < board.owners.len() && (p == cell
                || (board.owners[p as int] matches Some(g) && board.is_friend(cell, colour, g))),
        forall|p: usize|
            p < board.owners.len() && (board.owners[p as int] matches Some(g) && board.is_friend(
                cell,
                colour,
                g,
            )) ==> #[trigger] board.merged_points(cell, colour).contains(p),
        forall|g: usize| board.is_friend(cell, colour, g) ==> board.groups.contains_key(g),
{
    assert forall|p: usize| #[trigger]
        board.merged_points(cell, colour).contains(p) implies p < board.owners.len() && (p == cell
        || (board.owners[p as int] matches Some(g) && board.is_friend(cell, colour, g))) by {
        if p != cell {
            let g = choose|g: usize|
                board.is_friend(cell, colour, g) && #[trigger] board.groups[g].points.contains(p);
            assert(board.groups.contains_key(g));
            assert(owns_exactly(board.owners, board.groups, g));
        }
    }
    assert forall|p: usize|
        p < board.owners.len() && (board.owners[p as int] matches Some(g) && board.is_friend(
            cell,
            colour,
            g,
        )) implies #[trigger] board.merged_points(cell, colour).contains(p) by {
        let g = board.owners[p as int]->Some_0;
        assert(board.groups.contains_key(g));
        assert(owns_exactly(board.owners, board.groups, g));
        assert(board.groups[g].points.contains(p));
    }
}

/// Once the stone stands, the grid and the map still fit together, and the
/// stone's group holds exactly the cells filed under the new id.
pub proof fn lemma_placed(board: BoardView, cell: usize, colour: Colour)
    requires
        board.shape_wf(),
        cell < board.owners.len(),
        board.owners[cell as int] is None,
    ensures
        coherent(board.placed_owners(cell, colour), board.placed_groups(cell, colour), board.size),
        owns_exactly(
            board.placed_owners(cell, colour),
            board.placed_groups(cell, colour),
            board.counter,
        ),
        board.placed_owners(cell, colour)[cell as int] == Some(board.counter),
        !board.captures(cell, colour, board.counter),
{
    lemma_merged_points(board, cell, colour);
    let owners = board.placed_owners(cell, colour);
    let groups = board.placed_groups(cell, colour);
    let merged = board.merged_points(cell, colour);
    assert forall|c: int| 0 <= c < owners.len() implies (#[trigger] owners[c] matches Some(g)
        ==> groups.contains_key(g)) by {
        if !merged.contains(c as usize) {
            assert(owners[c] == board.owners[c]);
        }
    }
    assert forall|g: usize, p: usize|
        groups.contains_key(g) && #[trigger] groups[g].points.contains(p) implies p
        < owners.len() by {
        if g != board.counter {
            assert(board.groups.contains_key(g));
            assert(board.groups[g].points.contains(p));
        }
    }
    assert forall|p: usize|
        #![trigger groups[board.counter].points.contains(p)]
        #![trigger owners[p as int]]
        groups[board.counter].points.contains(p) <==> p < owners.len() && owners[p as int] == Some(
            board.counter,
        ) by {
        if p < owners.len() && !merged.contains(p) {
            if let Some(g) = board.owners[p as int] {
                assert(board.groups.contains_key(g));
            }
        }
    }
    if board.captures(cell, colour, board.counter) {
        let (p, a) = choose|p: usize, a: usize|
            #![trigger merged.contains(p), adjacent(board.size, p, a)]
            merged.contains(p) && adjacent(board.size, p, a) && enemy_at(
                owners,
                groups,
                colour,
                a,
                board.counter,
            );
        assert(false);
    }
}

/// The stones that a stone leaves behind, whichever groups it takes off the
/// board with it, are well formed, as long as its own group stays.
pub proof fn lemma_cleared_shape(board: BoardView, cell: usize, colour: Colour, gone: Set<usize>)
    requires
        board.shape_wf(),
        cell < board.owners.len(),
        board.owners[cell as int] is None,
        !gone.contains(board.counter),
        board.counter < usize::MAX,
    ensures
        board.cleared(cell, colour, gone).shape_wf(),
{
    lemma_merged_points(board, cell, colour);
    lemma_placed(board, cell, colour);
    let placed_owners = board.placed_owners(cell, colour);
    let placed_groups = board.placed_groups(cell, colour);
    let merged = board.merged_points(cell, colour);
    let next = board.cleared(cell, colour, gone);
    let owners = next.owners;
    let groups = next.groups;
    assert(owners.len() == board.owners.len());
    assert forall|c: int| 0 <= c < owners.len() implies (#[trigger] owners[c] matches Some(g)
        ==> groups.contains_key(g)) by {
        if let Some(g) = owners[c] {
            assert(placed_owners[c] == Some(g));
            assert(referenced(owners, g));
        }
    }
    assert forall|g: usize| #[trigger] groups.contains_key(g) implies {
        &&& g < next.counter
        &&& groups[g].id == g
        &&& owns_exactly(owners, groups, g)
        &&& referenced(owners, g)
    } by {
        assert(placed_groups.contains_key(g));
        assert(referenced(owners, g));
        let c = choose|c: int| 0 <= c < owners.len() && #[trigger] owners[c] == Some(g);
        assert(placed_owners[c] == Some(g));
        assert(!gone.contains(g));
        if g == board.counter {
            assert forall|p: usize|
                #![trigger groups[g].points.contains(p)]
                #![trigger owners[p as int]]
                groups[g].points.contains(p) <==> p < owners.len() && owners[p as int] == Some(
                    g,
                ) by {
                if p < owners.len() {
                    assert(owners[p as int] == Some(g) <==> placed_owners[p as int] == Some(g));
                }
            }
        } else {
            assert(board.groups.contains_key(g));
            assert(owns_exactly(board.owners, board.groups, g));
            let held = c as usize;
            assert(!merged.contains(held));
            assert(board.owners[held as int] == Some(g));
            if board.is_friend(cell, colour, g) {
                assert(board.groups[g].points.contains(held));
                assert(merged.contains(held));
            }
            assert forall|p: usize|
                #![trigger groups[g].points.contains(p)]
                #![trigger owners[p as int]]
                groups[g].points.contains(p) <==> p < owners.len() && owners[p as int] == Some(
                    g,
                ) by {
                if p < owners.len() {
                    if merged.contains(p) {
                        assert(placed_owners[p as int] == Some(board.counter));
                        assert(board.owners[p as int] != Some(g));
                    } else {
                        assert(placed_owners[p as int] == board.owners[p as int]);
                    }
                }
            }
        }
    }
    assert forall|g: usize, p: usize|
        groups.contains_key(g) && #[trigger] groups[g].points.contains(p) implies p
        < owners.len() by {
        assert(placed_groups.contains_key(g));
    }
    assert(groups.dom().subset_of(placed_groups.dom()));
    vstd::set_lib::lemma_set_subset_finite(placed_groups.dom(), groups.dom());
}

/// The board that a legal stone leaves behind is well formed.
pub proof fn lemma_after_wf(board: BoardView, cell: usize, colour: Colour)
    requires
        board.wf(),
        cell < board.owners.len(),
        board.owners[cell as int] is None,
        !board.visited.contains(board.settled_hash(cell, colour)),
        board.counter < usize::MAX,
    ensures
        board.after(cell, colour).wf(),
{
    lemma_placed(board, cell, colour);
    lemma_cleared_shape(board, cell, colour, board.captured(cell, colour));
    let next = board.after(cell, colour);
    let cleared = board.cleared(cell, colour, board.captured(cell, colour));
    assert(next.owners == cleared.owners);
    assert(next.groups == cleared.groups);
}

impl BoardView {
    /// The owners once the stone stands alone on its cell, before it joins
    /// the groups around it.
    pub open spec fn seeded_owners(self, cell: usize) -> Seq<Option<usize>> {
        self.owners.update(cell as int, Some(self.counter))
    }

    /// The groups once the lone stone is filed under the new id.
    pub open spec fn seeded_groups(self, cell: usize, colour: Colour) -> Map<usize, GroupView> {
        self.groups.insert(
            self.counter,
            GroupView { id: self.counter, colour, points: set![cell] },
        )
    }
}

/// With the lone stone on the board the grid and the map fit together, and
/// the groups that touch the stone are those that touched the empty cell.
pub proof fn lemma_seeded(board: BoardView, cell: usize, colour: Colour)
    requires
        board.shape_wf(),
        cell < board.owners.len(),
        board.owners[cell as int] is None,
    ensures
        coherent(board.seeded_owners(cell), board.seeded_groups(cell, colour), board.size),
        forall|g: usize|
            touches_friend(
                board.seeded_owners(cell),
                board.seeded_groups(cell, colour),
                board.size,
                set![cell],
                colour,
                g,
            ) <==> board.is_friend(cell, colour, g),
{
    let owners = board.seeded_owners(cell);
    let groups = board.seeded_groups(cell, colour);
    assert forall|c: int| 0 <= c < owners.len() implies (#[trigger] owners[c] matches Some(g)
        ==> groups.contains_key(g)) by {
        if c != cell {
            if let Some(g) = board.owners[c] {
                assert(board.groups.contains_key(g));
            }
        }
    }
    assert forall|g: usize| #[trigger] groups.contains_key(g) implies groups[g].id == g by {
        if g != board.counter {
            assert(board.groups.contains_key(g));
        }
    }
    assert forall|g: usize, p: usize|
        groups.contains_key(g) && #[trigger] groups[g].points.contains(p) implies p
        < owners.len() by {
        if g != board.counter {
            assert(board.groups.contains_key(g));
            assert(board.groups[g].points.contains(p));
        }
    }
    assert forall|g: usize|
        touches_friend(owners, groups, board.size, set![cell], colour, g) <==> board.is_friend(
            cell,
            colour,
            g,
        ) by {
        if touches_friend(owners, groups, board.size, set![cell], colour, g) {
            let (p, a) = choose|p: usize, a: usize|
                #![trigger set![cell].contains(p), adjacent(board.size, p, a)]
                set![cell].contains(p) && adjacent(board.size, p, a) && friend_at(
                    owners,
                    groups,
                    set![cell],
                    colour,
                    a,
                    g,
                );
            assert(board.owners[a as int] == Some(g));
            assert(board.groups.contains_key(g));
            assert(friend_at(board.owners, board.groups, set![cell], colour, a, g));
        }
        if board.is_friend(cell, colour, g) {
            let (p, a) = choose|p: usize, a: usize|
                #![trigger set![cell].contains(p), adjacent(board.size, p, a)]
                set![cell].contains(p) && adjacent(board.size, p, a) && friend_at(
                    board.owners,
                    board.groups,
                    set![cell],
                    colour,
                    a,
                    g,
                );
            assert(friend_at(owners, groups, set![cell], colour, a, g));
        }
    }
}

/// A stone without friends next to it forms a group of its own.
pub proof fn lemma_lone_stone(board: BoardView, cell: usize, colour: Colour)
    requires
        board.shape_wf(),
        cell < board.owners.len(),
        board.owners[cell as int] is None,
        forall|g: usize| !board.is_friend(cell, colour, g),
    ensures
        board.merged_points(cell, colour) == set![cell],
        board.placed_owners(cell, colour) == board.seeded_owners(cell),
        board.placed_groups(cell, colour) == board.seeded_groups(cell, colour),
{
    assert(board.merged_points(cell, colour) =~= set![cell]);
    assert(board.placed_owners(cell, colour) =~= board.seeded_owners(cell));
}

/// The union of the stone's cell with the cells of each friend, listed in
/// any order, is the merged group.
pub proof fn lemma_merge_covers(
    board: BoardView,
    cell: usize,
    colour: Colour,
    ids: Seq<usize>,
    sets: Seq<Set<usize>>,
)
    requires
        board.shape_wf(),
        cell < board.owners.len(),
        board.owners[cell as int] is None,
        sets.len() == ids.len() + 1,
        sets[ids.len() as int] == set![cell],
        forall|i: int|
            0 <= i < ids.len() ==> board.is_friend(cell, colour, #[trigger] ids[i]) && sets[i]
                == board.groups[ids[i]].points,
        forall|g: usize| board.is_friend(cell, colour, g) ==> ids.contains(g),
    ensures
        crate::group_state::union_of(sets) == board.merged_points(cell, colour),
{
    let merged = board.merged_points(cell, colour);
    let all = crate::group_state::union_of(sets);
    assert forall|p: usize| all.contains(p) <==> merged.contains(p) by {
        if all.contains(p) {
            let i = choose|i: int| 0 <= i < sets.len() && #[trigger] sets[i].contains(p);
            if i < ids.len() {
                assert(board.is_friend(cell, colour, ids[i]));
                assert(board.groups[ids[i]].points.contains(p));
            }
        }
        if merged.contains(p) {
            if p == cell {
                assert(sets[ids.len() as int].contains(p));
            } else {
                let g = choose|g: usize|
                    board.is_friend(cell, colour, g) && #[trigger] board.groups[g].points.contains(
                        p,
                    );
                assert(ids.contains(g));
                let i = choose|i: int| 0 <= i < ids.len() && ids[i] == g;
                assert(sets[i].contains(p));
            }
        }
    }
    assert(all =~= merged);
}

} // verus!
