//! Laws of the rules of play, proved from the definition of a move.

use vstd::prelude::*;
use crate::board_view::{colour_at, colour_grid, enemy_at, friend_at, owns_exactly, referenced,
    touches_enemy, BoardView};
use crate::colour::Colour;
use crate::coordinate::Coordinate;
use crate::fails::TurnErrors;
use crate::geometry::{adjacent, cell_count, has_liberty, is_liberty, lemma_adjacent_symmetric};
use crate::zobrist::hash_of;

verus! {

/// The grid of the board after a legal stone is the grid that the stone
/// settles to, and its hash is remembered.
pub proof fn lemma_after_grid(board: BoardView, cell: usize, colour: Colour)
    requires
        board.wf(),
        cell < board.owners.len(),
        board.owners[cell as int] is None,
    ensures
        board.after(cell, colour).grid() == board.settled_grid(cell, colour),
        board.after(cell, colour).visited.contains(
            hash_of(board.keys, board.after(cell, colour).grid()),
        ),
{
    let next = board.after(cell, colour);
    let settled = board.settled_owners(cell, colour);
    let placed = board.placed_groups(cell, colour);
    assert forall|c: int| 0 <= c < settled.len() implies colour_at(next.owners, next.groups, c)
        == colour_at(settled, placed, c) by {
        if let Some(g) = settled[c] {
            assert(referenced(settled, g));
        }
    }
    assert(next.grid() =~= board.settled_grid(cell, colour));
}

/// A point off the board is refused as out of bounds, whatever the colour.
pub proof fn lemma_out_of_bounds(board: BoardView, index: usize, colour: Colour)
    requires
        board.wf(),
        index >= board.size * board.size,
    ensures
        board.add_stone(Coordinate::Index(index), colour) == Err::<BoardView, TurnErrors>(
            TurnErrors::OutofBounds,
        ),
{
}

/// A point that a legal stone has just been placed on is refused as already
/// placed, whatever the colour of the second stone.
pub proof fn lemma_already_placed(
    board: BoardView,
    coordinate: Coordinate,
    colour: Colour,
    second: Colour,
)
    requires
        board.wf(),
        board.add_stone(coordinate, colour) is Ok,
    ensures
        board.add_stone(coordinate, colour)->Ok_0.add_stone(coordinate, second) == Err::<
            BoardView,
            TurnErrors,
        >(TurnErrors::AlreadyPlaced),
{
    let cell = coordinate.index_on(board.size as int) as usize;
    crate::board_view::lemma_placed(board, cell, colour);
    let next = board.after(cell, colour);
    assert(board.placed_owners(cell, colour)[cell as int] == Some(board.counter));
    assert(next.owners[cell as int] == Some(board.counter));
}

/// Capture comes before suicide: a stone that captures a group is never
/// refused as suicide, and where it is placed the cells of every captured
/// group are empty afterwards.
pub proof fn lemma_capture_before_suicide(
    board: BoardView,
    coordinate: Coordinate,
    colour: Colour,
    victim: usize,
)
    requires
        board.wf(),
        coordinate.on_board(board.size as int),
        board.owners[coordinate.index_on(board.size as int)] is None,
        board.captures(coordinate.index_on(board.size as int) as usize, colour, victim),
    ensures
        board.add_stone(coordinate, colour) != Err::<BoardView, TurnErrors>(TurnErrors::Suicide),
        board.add_stone(coordinate, colour) matches Ok(next) ==> forall|c: int|
            0 <= c < board.owners.len() && #[trigger] board.owners[c] == Some(victim)
                ==> next.grid()[c] == Colour::Empty,
{
    let cell = coordinate.index_on(board.size as int) as usize;
    crate::board_view::lemma_merged_points(board, cell, colour);
    crate::board_view::lemma_placed(board, cell, colour);
    if board.add_stone(coordinate, colour) is Ok {
        let next = board.after(cell, colour);
        lemma_after_grid(board, cell, colour);
        assert forall|c: int|
            0 <= c < board.owners.len() && #[trigger] board.owners[c] == Some(
                victim,
            ) implies next.grid()[c] == Colour::Empty by {
            assert(board.groups.contains_key(victim));
            assert(victim != board.counter);
            let placed = board.placed_owners(cell, colour)[c];
            assert(placed == Some(victim) || placed == Some(board.counter));
            if placed == Some(board.counter) {
                // the cell joined the new group, so its old group was a friend
                assert(board.merged_points(cell, colour).contains(c as usize));
                assert(board.is_friend(cell, colour, victim));
                let (p, a) = choose|p: usize, a: usize|
                    #![trigger
                        board.merged_points(cell, colour).contains(p),
                        adjacent(board.size, p, a)
                    ]
                    board.merged_points(cell, colour).contains(p) && adjacent(board.size, p, a)
                        && enemy_at(
                        board.placed_owners(cell, colour),
                        board.placed_groups(cell, colour),
                        colour,
                        a,
                        victim,
                    );
                let (q, b) = choose|q: usize, b: usize|
                    #![trigger set![cell].contains(q), adjacent(board.size, q, b)]
                    set![cell].contains(q) && adjacent(board.size, q, b) && friend_at(
                        board.owners,
                        board.groups,
                        set![cell],
                        colour,
                        b,
                        victim,
                    );
                assert(false);
            }
            assert(board.captured(cell, colour).contains(victim));
            assert(board.settled_owners(cell, colour)[c] is None);
        }
    }
}

/// Simple ko: a stone that captures and would bring back the grid of a
/// position that the game remembers is refused as ko.
pub proof fn lemma_recapture_is_ko(
    board: BoardView,
    coordinate: Coordinate,
    colour: Colour,
    victim: usize,
    earlier: Seq<Colour>,
)
    requires
        board.wf(),
        coordinate.on_board(board.size as int),
        board.owners[coordinate.index_on(board.size as int)] is None,
        board.captures(coordinate.index_on(board.size as int) as usize, colour, victim),
        board.visited.contains(hash_of(board.keys, earlier)),
        board.settled_grid(coordinate.index_on(board.size as int) as usize, colour) == earlier,
    ensures
        board.add_stone(coordinate, colour) == Err::<BoardView, TurnErrors>(TurnErrors::Ko),
{
}

/// The position two plies back is remembered: after two legal stones in a
/// row the board still knows the grid that the first of them made, so a
/// third stone that captures and recreates that grid is refused as ko. The
/// board must have room to number two more groups.
pub proof fn lemma_two_plies_back(
    board: BoardView,
    first: Coordinate,
    first_colour: Colour,
    second: Coordinate,
    second_colour: Colour,
    third: Coordinate,
    third_colour: Colour,
    victim: usize,
)
    requires
        board.wf(),
        board.counter + 2 <= usize::MAX,
        board.add_stone(first, first_colour) is Ok,
        board.add_stone(first, first_colour)->Ok_0.add_stone(second, second_colour) is Ok,
        ({
            let one = board.add_stone(first, first_colour)->Ok_0;
            let two = one.add_stone(second, second_colour)->Ok_0;
            let cell = third.index_on(two.size as int);
            &&& third.on_board(two.size as int)
            &&& two.owners[cell] is None
            &&& two.captures(cell as usize, third_colour, victim)
            &&& two.settled_grid(cell as usize, third_colour) == one.grid()
        }),
    ensures
        board.add_stone(first, first_colour)->Ok_0.add_stone(second, second_colour)->Ok_0.add_stone(
            third,
            third_colour,
        ) == Err::<BoardView, TurnErrors>(TurnErrors::Ko),
{
    let cell1 = first.index_on(board.size as int) as usize;
    let one = board.after(cell1, first_colour);
    lemma_after_grid(board, cell1, first_colour);
    crate::board_view::lemma_after_wf(board, cell1, first_colour);
    let cell2 = second.index_on(one.size as int) as usize;
    let two = one.after(cell2, second_colour);
    crate::board_view::lemma_after_wf(one, cell2, second_colour);
    assert(two.visited.contains(hash_of(one.keys, one.grid())));
    lemma_recapture_is_ko(two, third, third_colour, victim, one.grid());
}

/// Suicide: a stone on an empty point whose every neighbour holds a stone of
/// another colour, and which captures nothing, is refused as suicide.
pub proof fn lemma_enclosed_is_suicide(board: BoardView, coordinate: Coordinate, colour: Colour)
    requires
        board.wf(),
        coordinate.on_board(board.size as int),
        board.owners[coordinate.index_on(board.size as int)] is None,
        forall|a: usize|
            adjacent(board.size, coordinate.index_on(board.size as int) as usize, a) ==> {
                &&& #[trigger] board.grid()[a as int] != Colour::Empty
                &&& board.grid()[a as int] != colour
            },
        forall|g: usize|
            !(#[trigger] board.captures(
                coordinate.index_on(board.size as int) as usize,
                colour,
                g,
            )),
    ensures
        board.add_stone(coordinate, colour) == Err::<BoardView, TurnErrors>(TurnErrors::Suicide),
{
    let cell = coordinate.index_on(board.size as int) as usize;
    crate::board_view::lemma_merged_points(board, cell, colour);
    crate::board_view::lemma_placed(board, cell, colour);
    assert forall|g: usize| !board.is_friend(cell, colour, g) by {
        if board.is_friend(cell, colour, g) {
            let (p, a) = choose|p: usize, a: usize|
                #![trigger set![cell].contains(p), adjacent(board.size, p, a)]
                set![cell].contains(p) && adjacent(board.size, p, a) && friend_at(
                    board.owners,
                    board.groups,
                    set![cell],
                    colour,
                    a,
                    g,
                );
            assert(board.grid()[a as int] == colour);
        }
    }
    crate::board_view::lemma_lone_stone(board, cell, colour);
    let merged = board.merged_points(cell, colour);
    let grid = board.settled_grid(cell, colour);
    assert(board.captured(cell, colour) =~= Set::<usize>::empty());
    assert(board.settled_owners(cell, colour) =~= board.placed_owners(cell, colour));
    if has_liberty(merged, grid, board.size) {
        let free = choose|free: usize| is_liberty(merged, grid, board.size, free);
        let p = choose|p: usize| #[trigger] merged.contains(p) && adjacent(board.size, p, free);
        assert(p == cell);
        lemma_adjacent_symmetric(board.size, cell, free);
        assert(board.grid()[free as int] != Colour::Empty);
        assert(board.owners[free as int] is Some);
        assert(grid[free as int] == board.grid()[free as int]);
        assert(false);
    }
}

/// Merge: a legal stone next to groups of its colour leaves exactly one
/// group in their place. That group is filed under the id that was next, it
/// holds the stone's cell and every cell of the groups it joined, each of
/// these cells names it as owner, and the joined groups are gone from the
/// map.
pub proof fn lemma_merge(board: BoardView, coordinate: Coordinate, colour: Colour)
    requires
        board.wf(),
        board.add_stone(coordinate, colour) is Ok,
    ensures
        ({
            let cell = coordinate.index_on(board.size as int) as usize;
            let next = board.add_stone(coordinate, colour)->Ok_0;
            &&& next.owners[cell as int] == Some(board.counter)
            &&& next.groups.contains_key(board.counter)
            &&& next.groups[board.counter].colour == colour
            &&& next.groups[board.counter].points == board.merged_points(cell, colour)
            &&& forall|p: usize|
                board.merged_points(cell, colour).contains(p) <==> p == cell || exists|g: usize|
                    board.is_friend(cell, colour, g) && #[trigger] board.groups[g].points.contains(
                        p,
                    )
            &&& forall|p: usize| #[trigger]
                board.merged_points(cell, colour).contains(p) ==> next.owners[p as int] == Some(
                    board.counter,
                )
            &&& forall|g: usize|
                board.is_friend(cell, colour, g) ==> !(#[trigger] next.groups.contains_key(g))
        }),
{
    let cell = coordinate.index_on(board.size as int) as usize;
    let next = board.after(cell, colour);
    crate::board_view::lemma_merged_points(board, cell, colour);
    crate::board_view::lemma_placed(board, cell, colour);
    let placed = board.placed_owners(cell, colour);
    assert(placed[cell as int] == Some(board.counter));
    assert(next.owners[cell as int] == Some(board.counter));
    assert(referenced(next.owners, board.counter));
    assert forall|p: usize| #[trigger]
        board.merged_points(cell, colour).contains(p) implies next.owners[p as int] == Some(
        board.counter,
    ) by {
        assert(placed[p as int] == Some(board.counter));
    }
    assert forall|g: usize| board.is_friend(cell, colour, g) implies !(
    #[trigger] next.groups.contains_key(g)) by {
        if next.groups.contains_key(g) {
            assert(referenced(next.owners, g));
            let c = choose|c: int| 0 <= c < next.owners.len() && #[trigger] next.owners[c] == Some(g);
            assert(placed[c] == Some(g));
            assert(board.groups.contains_key(g));
            assert(g != board.counter);
            let held = c as usize;
            assert(!board.merged_points(cell, colour).contains(held));
            assert(board.owners[held as int] == Some(g));
            assert(board.groups[g].points.contains(held));
        }
    }
}

/// A capture gives the capturing group a liberty: once the captured group
/// has left, a cell that it held next to the capturing group is empty. So
/// the group of a stone that captures need not be looked at for suicide.
pub proof fn lemma_capture_grants_liberty(
    board: BoardView,
    cell: usize,
    colour: Colour,
    victim: usize,
)
    requires
        board.wf(),
        cell < board.owners.len(),
        board.owners[cell as int] is None,
        board.captures(cell, colour, victim),
    ensures
        has_liberty(board.merged_points(cell, colour), board.settled_grid(cell, colour), board.size),
{
    let merged = board.merged_points(cell, colour);
    let owners = board.placed_owners(cell, colour);
    let groups = board.placed_groups(cell, colour);
    let (p, a) = choose|p: usize, a: usize|
        #![trigger merged.contains(p), adjacent(board.size, p, a)]
        merged.contains(p) && adjacent(board.size, p, a) && enemy_at(owners, groups, colour, a, victim);
    assert(board.captured(cell, colour).contains(victim));
    assert(board.settled_owners(cell, colour)[a as int] is None);
    assert(board.settled_grid(cell, colour)[a as int] == Colour::Empty);
    assert(is_liberty(merged, board.settled_grid(cell, colour), board.size, a));
}

/// Whether every group on the board has a liberty.
pub open spec fn all_alive(board: BoardView) -> bool {
    forall|g: usize| #[trigger]
        board.groups.contains_key(g) ==> has_liberty(
            board.groups[g].points,
            board.grid(),
            board.size,
        )
}

/// Whether every group on the board is a group of stones: none has the
/// colour `Empty`.
pub open spec fn stones_only(board: BoardView) -> bool {
    forall|g: usize| #[trigger] board.groups.contains_key(g) ==> board.groups[g].colour
        != Colour::Empty
}

/// A legal black or white stone leaves only groups of stones on a board of
/// groups of stones.
pub proof fn lemma_stones_stay_stones(board: BoardView, coordinate: Coordinate, colour: Colour)
    requires
        board.wf(),
        stones_only(board),
        colour != Colour::Empty,
        board.add_stone(coordinate, colour) is Ok,
    ensures
        stones_only(board.add_stone(coordinate, colour)->Ok_0),
{
}

/// No legal stone leaves a group without a liberty on the board: on a board
/// of groups of stones, if every group had a liberty before a legal black
/// or white stone, every group has one after it.
pub proof fn lemma_legal_moves_keep_groups_alive(
    board: BoardView,
    coordinate: Coordinate,
    colour: Colour,
)
    requires
        board.wf(),
        stones_only(board),
        colour != Colour::Empty,
        all_alive(board),
        board.add_stone(coordinate, colour) is Ok,
    ensures
        all_alive(board.add_stone(coordinate, colour)->Ok_0),
{
    let cell = coordinate.index_on(board.size as int) as usize;
    let next = board.after(cell, colour);
    let merged = board.merged_points(cell, colour);
    let owners = board.placed_owners(cell, colour);
    let groups = board.placed_groups(cell, colour);
    let placed_grid = colour_grid(owners, groups);
    let grid = board.settled_grid(cell, colour);
    crate::board_view::lemma_merged_points(board, cell, colour);
    crate::board_view::lemma_placed(board, cell, colour);
    lemma_after_grid(board, cell, colour);
    assert(next.grid() == grid);
    assert forall|g: usize| #[trigger] next.groups.contains_key(g) implies has_liberty(
        next.groups[g].points,
        next.grid(),
        next.size,
    ) by {
        assert(groups.contains_key(g));
        assert(referenced(next.owners, g));
        let c = choose|c: int| 0 <= c < next.owners.len() && #[trigger] next.owners[c] == Some(g);
        assert(owners[c] == Some(g));
        assert(!board.captured(cell, colour).contains(g));
        if g == board.counter {
            if exists|victim: usize| board.captures(cell, colour, victim) {
                let victim = choose|victim: usize| board.captures(cell, colour, victim);
                lemma_capture_grants_liberty(board, cell, colour, victim);
            } else {
                assert(!board.is_suicide(cell, colour));
            }
        } else {
            assert(board.groups.contains_key(g));
            let held = c as usize;
            assert(!merged.contains(held));
            assert(board.owners[held as int] == Some(g));
            let points = board.groups[g].points;
            assert(next.groups[g].points == points);
            let free = choose|free: usize| is_liberty(points, board.grid(), board.size, free);
            let stone = choose|stone: usize|
                #[trigger] points.contains(stone) && adjacent(board.size, stone, free);
            assert(board.owners[free as int] is None) by {
                if let Some(holder) = board.owners[free as int] {
                    assert(board.groups.contains_key(holder));
                }
            }
            if free == cell {
                // the stone took this liberty: the group touches the stone
                lemma_adjacent_symmetric(board.size, stone, free);
                assert(owns_exactly(board.owners, board.groups, g));
                assert(board.owners[stone as int] == Some(g));
                if board.groups[g].colour == colour {
                    assert(friend_at(board.owners, board.groups, set![cell], colour, stone, g));
                    assert(set![cell].contains(cell) && adjacent(board.size, cell, stone));
                    assert(board.is_friend(cell, colour, g));
                    assert(board.groups[g].points.contains(held));
                    assert(merged.contains(held));
                } else {
                    assert(!merged.contains(stone));
                    assert(owners[stone as int] == Some(g));
                    assert(enemy_at(owners, groups, colour, stone, g));
                    assert(merged.contains(cell) && adjacent(board.size, cell, stone));
                    assert(touches_enemy(
                        owners,
                        groups,
                        board.size,
                        merged,
                        colour,
                        g,
                    ));
                    // it was looked at and not captured, so it has a liberty
                    assert(has_liberty(groups[g].points, placed_grid, board.size));
                    let other = choose|other: usize|
                        is_liberty(groups[g].points, placed_grid, board.size, other);
                    assert(owners[other as int] is None) by {
                        if let Some(holder) = owners[other as int] {
                            assert(groups.contains_key(holder));
                            if holder != board.counter {
                                assert(board.groups.contains_key(holder));
                            }
                        }
                    }
                    assert(grid[other as int] == Colour::Empty);
                    assert(is_liberty(points, grid, board.size, other));
                }
            } else {
                assert(!merged.contains(free));
                assert(owners[free as int] is None);
                assert(grid[free as int] == Colour::Empty);
                assert(is_liberty(points, grid, board.size, free));
            }
        }
    }
}

/// Whether groups are as large as can be: two stones of one colour that
/// touch belong to one group.
pub open spec fn neighbours_agree(board: BoardView) -> bool {
    forall|a: usize, b: usize|
        #![trigger adjacent(board.size, a, b)]
        adjacent(board.size, a, b) && board.owners[a as int] is Some && board.owners[b as int] is Some
            && board.grid()[a as int] == board.grid()[b as int] ==> board.owners[a as int]
            == board.owners[b as int]
}

/// A legal stone keeps groups as large as can be: it joins every group of
/// its colour that it touches, so afterwards two stones of one colour that
/// touch still belong to one group.
pub proof fn lemma_groups_stay_maximal(board: BoardView, coordinate: Coordinate, colour: Colour)
    requires
        board.wf(),
        neighbours_agree(board),
        board.add_stone(coordinate, colour) is Ok,
    ensures
        neighbours_agree(board.add_stone(coordinate, colour)->Ok_0),
{
    let cell = coordinate.index_on(board.size as int) as usize;
    let next = board.after(cell, colour);
    let merged = board.merged_points(cell, colour);
    let owners = board.placed_owners(cell, colour);
    let groups = board.placed_groups(cell, colour);
    crate::board_view::lemma_merged_points(board, cell, colour);
    crate::board_view::lemma_placed(board, cell, colour);
    lemma_after_grid(board, cell, colour);
    assert forall|a: usize, b: usize|
        #![trigger adjacent(next.size, a, b)]
        adjacent(next.size, a, b) && next.owners[a as int] is Some && next.owners[b as int] is Some
            && next.grid()[a as int] == next.grid()[b as int] implies next.owners[a as int]
        == next.owners[b as int] by {
        lemma_adjacent_symmetric(board.size, a, b);
        let g1 = next.owners[a as int]->Some_0;
        let g2 = next.owners[b as int]->Some_0;
        assert(owners[a as int] == Some(g1));
        assert(owners[b as int] == Some(g2));
        assert(next.grid()[a as int] == groups[g1].colour);
        assert(next.grid()[b as int] == groups[g2].colour);
        if g1 != g2 {
            if g1 == board.counter {
                lemma_joins_every_friend(board, cell, colour, a, b, g2);
            } else if g2 == board.counter {
                lemma_joins_every_friend(board, cell, colour, b, a, g1);
            } else {
                assert(!merged.contains(a));
                assert(!merged.contains(b));
                assert(board.owners[a as int] == Some(g1));
                assert(board.owners[b as int] == Some(g2));
                assert(board.groups.contains_key(g1));
                assert(board.groups.contains_key(g2));
                assert(board.grid()[a as int] == board.grid()[b as int]);
            }
        }
    }
}

/// A stone of the colour of the placed stone that touches the placed
/// stone's group is part of that group.
pub proof fn lemma_joins_every_friend(
    board: BoardView,
    cell: usize,
    colour: Colour,
    inside: usize,
    outside: usize,
    g: usize,
)
    requires
        board.wf(),
        neighbours_agree(board),
        cell < board.owners.len(),
        board.owners[cell as int] is None,
        board.merged_points(cell, colour).contains(inside),
        adjacent(board.size, inside, outside),
        outside < board.owners.len(),
        board.owners[outside as int] == Some(g),
        board.groups[g].colour == colour,
    ensures
        board.merged_points(cell, colour).contains(outside),
{
    crate::board_view::lemma_merged_points(board, cell, colour);
    assert(board.groups.contains_key(g));
    if inside == cell {
        assert(friend_at(board.owners, board.groups, set![cell], colour, outside, g));
        assert(set![cell].contains(cell) && adjacent(board.size, cell, outside));
        assert(board.is_friend(cell, colour, g));
    } else {
        let f = board.owners[inside as int]->Some_0;
        assert(board.is_friend(cell, colour, f));
        assert(board.groups.contains_key(f));
        let (p, a) = choose|p: usize, a: usize|
            #![trigger set![cell].contains(p), adjacent(board.size, p, a)]
            set![cell].contains(p) && adjacent(board.size, p, a) && friend_at(
                board.owners,
                board.groups,
                set![cell],
                colour,
                a,
                f,
            );
        assert(board.grid()[inside as int] == board.grid()[outside as int]);
        assert(f == g);
    }
}

/// Whether cell number `i` of `path` touches the next.
pub open spec fn is_link(size: usize, path: Seq<usize>, i: int) -> bool {
    adjacent(size, path[i], path[i + 1])
}

/// Whether `path` is a chain of stones of group `g`: every cell of it is
/// owned by `g`, and each touches the next.
pub open spec fn is_chain(owners: Seq<Option<usize>>, size: usize, g: usize, path: Seq<usize>)
    -> bool {
    &&& path.len() > 0
    &&& forall|i: int|
        0 <= i < path.len() ==> (#[trigger] path[i]) < owners.len() && owners[path[i] as int]
            == Some(g)
    &&& forall|i: int| 0 <= i < path.len() - 1 ==> #[trigger] is_link(size, path, i)
}

/// Whether a chain of stones of group `g` leads from `from` to `to`.
pub open spec fn chained(
    owners: Seq<Option<usize>>,
    size: usize,
    g: usize,
    from: usize,
    to: usize,
) -> bool {
    exists|path: Seq<usize>|
        #![trigger is_chain(owners, size, g, path)]
        is_chain(owners, size, g, path) && path[0] == from && path.last() == to
}

/// Whether every group is connected: from each of its stones a chain of its
/// stones leads to each other.
pub open spec fn connected(board: BoardView) -> bool {
    forall|g: usize, p: usize, q: usize|
        #![trigger board.groups[g].points.contains(p), board.groups[g].points.contains(q)]
        board.groups.contains_key(g) && board.groups[g].points.contains(p)
            && board.groups[g].points.contains(q) ==> chained(board.owners, board.size, g, p, q)
}

/// A chain can be walked backwards.
pub proof fn lemma_chain_back(
    owners: Seq<Option<usize>>,
    size: usize,
    g: usize,
    from: usize,
    to: usize,
)
    requires
        chained(owners, size, g, from, to),
    ensures
        chained(owners, size, g, to, from),
{
    let path = choose|path: Seq<usize>|
        #![trigger is_chain(owners, size, g, path)]
        is_chain(owners, size, g, path) && path[0] == from && path.last() == to;
    let back = path.reverse();
    assert forall|i: int| 0 <= i < back.len() - 1 implies #[trigger] is_link(size, back, i) by {
        let j = path.len() - 2 - i;
        assert(is_link(size, path, j));
        lemma_adjacent_symmetric(size, path[j], path[j + 1]);
    }
    assert forall|i: int| 0 <= i < back.len() implies (#[trigger] back[i]) < owners.len()
        && owners[back[i] as int] == Some(g) by {
        assert(back[i] == path[path.len() - 1 - i]);
    }
    assert(is_chain(owners, size, g, back));
    assert(back[0] == to && back.last() == from);
}

/// Two chains that meet make one.
pub proof fn lemma_chain_on(
    owners: Seq<Option<usize>>,
    size: usize,
    g: usize,
    from: usize,
    over: usize,
    to: usize,
)
    requires
        chained(owners, size, g, from, over),
        chained(owners, size, g, over, to),
    ensures
        chained(owners, size, g, from, to),
{
    let first = choose|path: Seq<usize>|
        #![trigger is_chain(owners, size, g, path)]
        is_chain(owners, size, g, path) && path[0] == from && path.last() == over;
    let second = choose|path: Seq<usize>|
        #![trigger is_chain(owners, size, g, path)]
        is_chain(owners, size, g, path) && path[0] == over && path.last() == to;
    let whole = first + second.drop_first();
    assert forall|i: int| 0 <= i < whole.len() implies (#[trigger] whole[i]) < owners.len()
        && owners[whole[i] as int] == Some(g) by {
        if i < first.len() {
            assert(whole[i] == first[i]);
        } else {
            assert(whole[i] == second[i - first.len() + 1]);
        }
    }
    assert forall|i: int| 0 <= i < whole.len() - 1 implies #[trigger] is_link(size, whole, i) by {
        if i < first.len() - 1 {
            assert(is_link(size, first, i));
        } else {
            let j = i - first.len() + 1;
            assert(is_link(size, second, j));
            if i == first.len() - 1 {
                assert(whole[i] == first.last());
            } else {
                assert(whole[i] == second[j]);
            }
            assert(whole[i + 1] == second[j + 1]);
        }
    }
    assert(is_chain(owners, size, g, whole));
    assert(whole[0] == from);
    if second.len() > 1 {
        assert(whole.last() == second.last());
    } else {
        assert(whole =~= first);
    }
}

/// A chain of stones that all change hands to one new owner is a chain of
/// the new owner.
pub proof fn lemma_chain_changes_hands(
    before: Seq<Option<usize>>,
    after: Seq<Option<usize>>,
    size: usize,
    old_owner: usize,
    new_owner: usize,
    from: usize,
    to: usize,
)
    requires
        chained(before, size, old_owner, from, to),
        before.len() == after.len(),
        forall|c: int|
            0 <= c < before.len() && #[trigger] before[c] == Some(old_owner) ==> after[c] == Some(
                new_owner,
            ),
    ensures
        chained(after, size, new_owner, from, to),
{
    let path = choose|path: Seq<usize>|
        #![trigger is_chain(before, size, old_owner, path)]
        is_chain(before, size, old_owner, path) && path[0] == from && path.last() == to;
    assert forall|i: int| 0 <= i < path.len() implies (#[trigger] path[i]) < after.len()
        && after[path[i] as int] == Some(new_owner) by {
        assert(before[path[i] as int] == Some(old_owner));
    }
    assert forall|i: int| 0 <= i < path.len() - 1 implies #[trigger] is_link(size, path, i) by {
        assert(is_link(size, path, i));
    }
    assert(is_chain(after, size, new_owner, path));
}

/// In the group of a stone that was just placed, a chain leads from the
/// stone to every stone of the group.
pub proof fn lemma_chain_from_stone(board: BoardView, cell: usize, colour: Colour, to: usize)
    requires
        board.wf(),
        connected(board),
        cell < board.owners.len(),
        board.owners[cell as int] is None,
        board.merged_points(cell, colour).contains(to),
    ensures
        chained(board.placed_owners(cell, colour), board.size, board.counter, cell, to),
{
    let owners = board.placed_owners(cell, colour);
    crate::board_view::lemma_merged_points(board, cell, colour);
    crate::board_view::lemma_placed(board, cell, colour);
    let alone = seq![cell];
    assert(is_chain(owners, board.size, board.counter, alone));
    assert(alone[0] == cell && alone.last() == cell);
    if to != cell {
        let f = board.owners[to as int]->Some_0;
        assert(board.is_friend(cell, colour, f));
        assert(board.groups.contains_key(f));
        let (p, a) = choose|p: usize, a: usize|
            #![trigger set![cell].contains(p), adjacent(board.size, p, a)]
            set![cell].contains(p) && adjacent(board.size, p, a) && friend_at(
                board.owners,
                board.groups,
                set![cell],
                colour,
                a,
                f,
            );
        assert(owns_exactly(board.owners, board.groups, f));
        assert(board.groups[f].points.contains(a));
        assert(board.groups[f].points.contains(to));
        assert(chained(board.owners, board.size, f, a, to));
        assert forall|c: int|
            0 <= c < board.owners.len() && #[trigger] board.owners[c] == Some(f) implies owners[c]
            == Some(board.counter) by {
            assert(board.merged_points(cell, colour).contains(c as usize));
        }
        lemma_chain_changes_hands(board.owners, owners, board.size, f, board.counter, a, to);
        let step = seq![cell, a];
        assert(is_link(board.size, step, 0));
        assert(board.merged_points(cell, colour).contains(a));
        assert(is_chain(owners, board.size, board.counter, step));
        assert(step[0] == cell && step.last() == a);
        lemma_chain_on(owners, board.size, board.counter, cell, a, to);
    }
}

/// A legal stone keeps groups connected: if every group was connected
/// before a legal stone, every group is connected after it.
pub proof fn lemma_groups_stay_connected(board: BoardView, coordinate: Coordinate, colour: Colour)
    requires
        board.wf(),
        connected(board),
        board.add_stone(coordinate, colour) is Ok,
    ensures
        connected(board.add_stone(coordinate, colour)->Ok_0),
{
    let cell = coordinate.index_on(board.size as int) as usize;
    let next = board.after(cell, colour);
    let merged = board.merged_points(cell, colour);
    let owners = board.placed_owners(cell, colour);
    let groups = board.placed_groups(cell, colour);
    let gone = board.captured(cell, colour);
    crate::board_view::lemma_merged_points(board, cell, colour);
    crate::board_view::lemma_placed(board, cell, colour);
    assert forall|g: usize, p: usize, q: usize|
        #![trigger next.groups[g].points.contains(p), next.groups[g].points.contains(q)]
        next.groups.contains_key(g) && next.groups[g].points.contains(p)
            && next.groups[g].points.contains(q) implies chained(
        next.owners,
        next.size,
        g,
        p,
        q,
    ) by {
        assert(groups.contains_key(g));
        assert(referenced(next.owners, g));
        let c = choose|c: int| 0 <= c < next.owners.len() && #[trigger] next.owners[c] == Some(g);
        assert(owners[c] == Some(g));
        assert(!gone.contains(g));
        assert forall|k: int|
            0 <= k < owners.len() && #[trigger] owners[k] == Some(g) implies next.owners[k] == Some(
            g,
        ) by {}
        if g == board.counter {
            lemma_chain_from_stone(board, cell, colour, p);
            lemma_chain_from_stone(board, cell, colour, q);
            lemma_chain_back(owners, board.size, g, cell, p);
            lemma_chain_on(owners, board.size, g, p, cell, q);
            lemma_chain_changes_hands(owners, next.owners, board.size, g, g, p, q);
        } else {
            assert(board.groups.contains_key(g));
            assert(owns_exactly(board.owners, board.groups, g));
            let held = c as usize;
            assert(!merged.contains(held));
            assert(board.owners[held as int] == Some(g));
            if board.is_friend(cell, colour, g) {
                assert(board.groups[g].points.contains(held));
                assert(merged.contains(held));
            }
            assert(chained(board.owners, board.size, g, p, q));
            assert forall|k: int|
                0 <= k < board.owners.len() && #[trigger] board.owners[k] == Some(
                    g,
                ) implies next.owners[k] == Some(g) by {
                assert(!merged.contains(k as usize));
                assert(owners[k] == board.owners[k]);
            }
            lemma_chain_changes_hands(board.owners, next.owners, board.size, g, g, p, q);
        }
    }
}

/// Whether the groups of the board are what the game calls groups: sets of
/// stones of one colour that are connected, as large as can be, and have a
/// liberty.
pub open spec fn sound(board: BoardView) -> bool {
    &&& board.wf()
    &&& stones_only(board)
    &&& all_alive(board)
    &&& neighbours_agree(board)
    &&& connected(board)
}

/// The empty board is sound.
pub proof fn lemma_fresh_board_is_sound(board: BoardView, size: usize)
    requires
        board.is_fresh(size),
        cell_count(size) <= usize::MAX,
    ensures
        sound(board),
{
}

/// A legal black or white stone on a sound board leaves a sound board.
pub proof fn lemma_moves_keep_boards_sound(
    board: BoardView,
    coordinate: Coordinate,
    colour: Colour,
)
    requires
        sound(board),
        board.counter < usize::MAX,
        colour != Colour::Empty,
        board.add_stone(coordinate, colour) is Ok,
    ensures
        sound(board.add_stone(coordinate, colour)->Ok_0),
{
    let cell = coordinate.index_on(board.size as int) as usize;
    crate::board_view::lemma_after_wf(board, cell, colour);
    lemma_stones_stay_stones(board, coordinate, colour);
    lemma_legal_moves_keep_groups_alive(board, coordinate, colour);
    lemma_groups_stay_maximal(board, coordinate, colour);
    lemma_groups_stay_connected(board, coordinate, colour);
}

} // verus!
