//! Monte Carlo Tree Search over boards.
//!
//! The tree lives in an arena: a node is known by its place in the list of
//! nodes, the root is node 0, and every other node comes after its parent.
//! One round of the search selects a leaf, expands it, plays a random game
//! from it and hands the result up to the root. Selection ranks children
//! that have been visited by a real-valued formula, which the caller
//! computes; everything else is here.

use vstd::prelude::*;
use std::cmp::Ordering;
use std::sync::Arc;
use rayon::iter::{IntoParallelRefIterator, ParallelIterator};
use crate::board_state::BoardState;
use crate::board_view::BoardView;
use crate::colour::{Colour, Outcome};
use crate::coordinate::Coordinate;
use crate::fails::TurnErrors;
use crate::game_state::{is_legal, legal_moves, lemma_legal_upto, GameState};
use crate::playout::{Playout, PlayoutView};
use crate::random::pick;

verus! {

/// A node of the search tree.
pub struct MonteCarloNode {
    /// The position that the node stands for.
    pub state: Arc<BoardState>,
    pub parent: Option<usize>,
    pub children: Vec<usize>,
    /// How many of the playouts through this node were won by the colour
    /// that is to move here.
    pub wins: usize,
    /// How many playouts went through this node.
    pub visits: usize,
    /// The colour that is to move.
    pub colour: Colour,
    /// The node's place in the arena.
    pub id: usize,
    /// The move that led here; `None` at the root of a fresh tree.
    pub game_move: Option<Coordinate>,
}

pub struct MonteCarloSearch {
    pub nodes: Vec<MonteCarloNode>,
    pub root: usize,
}

/// What selection finds at a node.
#[derive(Clone, Copy, Debug, PartialEq, Eq, Structural)]
pub enum Selection {
    /// The node has no children: it is the leaf that selection looks for.
    Leaf,
    /// The node has a child that no playout has visited yet; this is the
    /// first such child, and selection goes on there.
    Unvisited(usize),
    /// Every child has been visited: the caller ranks them and goes on at
    /// the best.
    Ranked,
}

/// The counters of a node, with what backpropagation reads of it.
pub struct Tally {
    pub parent: Option<usize>,
    pub colour: Colour,
    pub wins: nat,
    pub visits: nat,
}

/// Whether `node` lies on the way from `leaf` up to the root, both ends
/// included.
pub open spec fn on_path(tallies: Seq<Tally>, leaf: int, node: int) -> bool
    decreases leaf,
{
    node == leaf || (0 <= leaf < tallies.len() && (tallies[leaf].parent matches Some(p) && p < leaf
        && on_path(tallies, p as int, node)))
}

/// The tally of a node after a playout that `winner` won went through it.
pub open spec fn bumped(tally: Tally, winner: Colour) -> Tally {
    Tally {
        parent: tally.parent,
        colour: tally.colour,
        wins: if tally.colour == winner {
            tally.wins + 1
        } else {
            tally.wins
        },
        visits: tally.visits + 1,
    }
}

/// The tallies after the result of a playout from `leaf` has been handed up
/// to the root: every node on the way counts one more visit, and one more
/// win if its colour to move is the winner.
pub open spec fn backpropagated(tallies: Seq<Tally>, leaf: int, winner: Colour) -> Seq<Tally> {
    Seq::new(
        tallies.len(),
        |i: int|
            if on_path(tallies, leaf, i) {
                bumped(tallies[i], winner)
            } else {
                tallies[i]
            },
    )
}

/// The tallies after a series of playouts, each given by its leaf and its
/// winner, has been handed up one after the other.
pub open spec fn backpropagated_all(tallies: Seq<Tally>, playouts: Seq<(int, Colour)>) -> Seq<
    Tally,
>
    decreases playouts.len(),
{
    if playouts.len() == 0 {
        tallies
    } else {
        backpropagated(
            backpropagated_all(tallies, playouts.drop_last()),
            playouts.last().0,
            playouts.last().1,
        )
    }
}

/// How many of `playouts` went through `node`.
pub open spec fn visits_through(tallies: Seq<Tally>, playouts: Seq<(int, Colour)>, node: int)
    -> nat
    decreases playouts.len(),
{
    if playouts.len() == 0 {
        0
    } else {
        visits_through(tallies, playouts.drop_last(), node) + if on_path(
            tallies,
            playouts.last().0,
            node,
        ) {
            1nat
        } else {
            0nat
        }
    }
}

/// A node on the way up from `leaf` is `leaf` or comes before it.
pub proof fn lemma_on_path_before(tallies: Seq<Tally>, leaf: int, node: int)
    requires
        on_path(tallies, leaf, node),
    ensures
        node <= leaf,
    decreases leaf,
{
    if node != leaf {
        lemma_on_path_before(tallies, tallies[leaf].parent->Some_0 as int, node);
    }
}

/// Handing a result up changes counters only: the way up from any leaf
/// stays what it was.
pub proof fn lemma_path_stable(
    tallies: Seq<Tally>,
    leaf: int,
    winner: Colour,
    from: int,
    node: int,
)
    ensures
        on_path(backpropagated(tallies, leaf, winner), from, node) == on_path(tallies, from, node),
    decreases from,
{
    let after = backpropagated(tallies, leaf, winner);
    if node != from && 0 <= from < tallies.len() {
        assert(after[from].parent == tallies[from].parent);
        if let Some(p) = tallies[from].parent {
            if p < from {
                lemma_path_stable(tallies, leaf, winner, p as int, node);
            }
        }
    }
}

/// Whether the search goes on to another round: neither the time nor the
/// number of rounds that it was given is used up. Whichever runs out first
/// stops it.
pub fn search_goes_on(elapsed_ms: u128, max_ms: u128, rounds: usize, max_rounds: usize) -> (on: bool)
    ensures
        on == (elapsed_ms < max_ms && rounds < max_rounds),
{
    elapsed_ms < max_ms && rounds < max_rounds
}

/// Whether the win rate `wins1 / visits1` is at most `wins2 / visits2`. A
/// node without visits counts as having the rate zero.
pub open spec fn rate_le(wins1: nat, visits1: nat, wins2: nat, visits2: nat) -> bool {
    if visits1 == 0 {
        true
    } else if visits2 == 0 {
        wins1 == 0
    } else {
        wins1 * visits2 <= wins2 * visits1
    }
}

/// Whether the win rate `wins1 / visits1` is at most `wins2 / visits2`.
pub fn rate_at_most(wins1: usize, visits1: usize, wins2: usize, visits2: usize) -> (le: bool)
    ensures
        le == rate_le(wins1 as nat, visits1 as nat, wins2 as nat, visits2 as nat),
{
    if visits1 == 0 {
        true
    } else if visits2 == 0 {
        wins1 == 0
    } else {
        assert(wins1 * visits2 <= 0xffff_ffff_ffff_ffff * 0xffff_ffff_ffff_ffff) by (nonlinear_arith)
            requires
                0 <= wins1 <= 0xffff_ffff_ffff_ffff,
                0 <= visits2 <= 0xffff_ffff_ffff_ffff,
        ;
        assert(wins2 * visits1 <= 0xffff_ffff_ffff_ffff * 0xffff_ffff_ffff_ffff) by (nonlinear_arith)
            requires
                0 <= wins2 <= 0xffff_ffff_ffff_ffff,
                0 <= visits1 <= 0xffff_ffff_ffff_ffff,
        ;
        (wins1 as u128) * (visits2 as u128) <= (wins2 as u128) * (visits1 as u128)
    }
}

impl MonteCarloSearch {
    /// The counters of the nodes.
    pub open spec fn tallies(&self) -> Seq<Tally> {
        Seq::new(
            self.nodes.len() as nat,
            |i: int|
                Tally {
                    parent: self.nodes[i].parent,
                    colour: self.nodes[i].colour,
                    wins: self.nodes[i].wins as nat,
                    visits: self.nodes[i].visits as nat,
                },
        )
    }

    /// What holds of node `i` in a well-formed tree.
    pub open spec fn node_wf(&self, i: int) -> bool {
        let node = self.nodes[i];
        &&& node.id == i
        &&& node.state.wf()
        &&& node.wins <= node.visits
        &&& i > 0 ==> node.game_move is Some && (node.parent matches Some(p) && p < i
            && node.visits <= self.nodes[p as int].visits)
        &&& forall|k: int|
            0 <= k < node.children.len() ==> i < #[trigger] node.children[k] < self.nodes.len()
                && self.nodes[node.children[k] as int].parent == Some(i as usize)
    }

    /// The invariant of the tree: node 0 is the root and has no parent;
    /// every other node comes after its parent and has no more visits than
    /// it; children are later nodes that name the node as their parent; no
    /// node has more wins than visits.
    pub open spec fn wf(&self) -> bool {
        &&& self.nodes.len() > 0
        &&& self.root == 0
        &&& self.nodes[0].parent is None
        &&& forall|i: int| 0 <= i < self.nodes.len() ==> #[trigger] self.node_wf(i)
    }

    /// Whether node `a` has at most the win rate of node `b`.
    pub open spec fn rate_le_at(&self, a: usize, b: usize) -> bool {
        rate_le(
            self.nodes[a as int].wins as nat,
            self.nodes[a as int].visits as nat,
            self.nodes[b as int].wins as nat,
            self.nodes[b as int].visits as nat,
        )
    }

    /// Of two nodes one has at most the win rate of the other.
    pub proof fn lemma_rate_total(&self, a: usize, b: usize)
        ensures
            self.rate_le_at(a, b) || self.rate_le_at(b, a),
    {
    }

    /// No node has more visits than the root.
    pub proof fn lemma_root_most_visited(&self, i: int)
        requires
            self.wf(),
            0 <= i < self.nodes.len(),
        ensures
            self.nodes[i].visits <= self.nodes[0].visits,
        decreases i,
    {
        assert(self.node_wf(i));
        if i > 0 {
            self.lemma_root_most_visited(self.nodes[i].parent->Some_0 as int);
        }
    }

    /// A tree that holds only its root: `board`, with `colour` to move.
    pub fn new(board: BoardState, colour: Colour) -> (search: Self)
        requires
            board.wf(),
        ensures
            search.wf(),
            search.nodes.len() == 1,
            search.nodes[0].state@ == board@,
            search.nodes[0].colour == colour,
            search.nodes[0].children.len() == 0,
            search.nodes[0].wins == 0,
            search.nodes[0].visits == 0,
            search.nodes[0].game_move is None,
    {
        let root_node = MonteCarloNode {
            state: Arc::new(board),
            parent: None,
            children: Vec::new(),
            wins: 0,
            visits: 0,
            colour,
            id: 0,
            game_move: None,
        };
        let mut nodes: Vec<MonteCarloNode> = Vec::new();
        nodes.push(root_node);
        let search = MonteCarloSearch { nodes, root: 0 };
        assert(search.node_wf(0));
        search
    }

    pub fn _get_root(&self) -> (root: &MonteCarloNode)
        requires
            self.wf(),
        ensures
            *root == self.nodes[0],
    {
        &self.nodes[self.root]
    }

    /// One step of selection at `node_index`: whether the node is a leaf,
    /// has a child that was never visited, or leaves the choice among its
    /// children to their ranking.
    pub fn select_step(&self, node_index: usize) -> (found: Selection)
        requires
            self.wf(),
            node_index < self.nodes.len(),
        ensures
            match found {
                Selection::Leaf => self.nodes[node_index as int].children.len() == 0,
                Selection::Unvisited(child) => exists|k: int|
                    0 <= k < self.nodes[node_index as int].children.len()
                        && #[trigger] self.nodes[node_index as int].children[k] == child
                        && self.nodes[child as int].visits == 0 && forall|j: int|
                        0 <= j < k ==> self.nodes[(
                        #[trigger] self.nodes[node_index as int].children[j]) as int].visits > 0,
                Selection::Ranked => self.nodes[node_index as int].children.len() > 0
                    && forall|j: int|
                    0 <= j < self.nodes[node_index as int].children.len() ==> self.nodes[(
                    #[trigger] self.nodes[node_index as int].children[j]) as int].visits > 0,
            },
    {
        let node = &self.nodes[node_index];
        if node.children.is_empty() {
            return Selection::Leaf;
        }
        assert(self.node_wf(node_index as int));
        let mut k: usize = 0;
        while k < node.children.len()
            invariant
                k <= node.children.len(),
                node == &self.nodes[node_index as int],
                self.node_wf(node_index as int),
                forall|j: int|
                    0 <= j < k ==> self.nodes[(#[trigger] node.children[j]) as int].visits > 0,
            decreases node.children.len() - k,
        {
            let child: usize = node.children[k];
            if self.nodes[child].visits == 0 {
                return Selection::Unvisited(child);
            }
            k += 1;
        }
        Selection::Ranked
    }

    /// Gives the leaf `node_index` one child for every legal move of the
    /// colour that is to move there. A position without legal moves gets no
    /// children.
    pub fn expand(&mut self, node_index: usize)
        requires
            old(self).wf(),
            node_index < old(self).nodes.len(),
            old(self).nodes[node_index as int].children.len() == 0,
        ensures
            final(self).wf(),
            ({
                let parent = old(self).nodes[node_index as int];
                let moves = legal_moves(parent.state@, parent.colour);
                let first = old(self).nodes.len() as int;
                &&& final(self).nodes.len() == first + moves.len()
                &&& forall|i: int|
                    0 <= i < first && i != node_index ==> #[trigger] final(self).nodes[i] == old(
                        self,
                    ).nodes[i]
                &&& final(self).nodes[node_index as int] == (MonteCarloNode {
                    children: final(self).nodes[node_index as int].children,
                    ..parent
                })
                &&& final(self).nodes[node_index as int].children@ == Seq::new(
                    moves.len(),
                    |k: int| (first + k) as usize,
                )
                &&& forall|k: int|
                    0 <= k < moves.len() ==> {
                        let child = #[trigger] final(self).nodes[first + k];
                        &&& child.parent == Some(node_index)
                        &&& child.children.len() == 0
                        &&& child.wins == 0
                        &&& child.visits == 0
                        &&& child.colour == parent.colour.opponent()
                        &&& child.id == first + k
                        &&& child.game_move == Some(moves[k])
                        &&& parent.state@.add_stone(moves[k], parent.colour) == Ok::<
                            BoardView,
                            TurnErrors,
                        >(child.state@)
                    }
            }),
    {
        let node_state = Arc::clone(&self.nodes[node_index].state);
        let node_colour = self.nodes[node_index].colour;
        assert(old(self).node_wf(node_index as int));
        let possible_moves = GameState::get_all_possible_moves_for_board(&node_state, node_colour);
        let ghost moves = possible_moves@;
        let first: usize = self.nodes.len();
        let mut children_ids: Vec<usize> = Vec::new();
        proof {
            lemma_legal_upto(node_state@, node_colour, node_state@.owners.len());
        }
        let mut k: usize = 0;
        while k < possible_moves.len()
            invariant
                k <= possible_moves.len(),
                possible_moves@ == moves,
                moves == legal_moves(node_state@, node_colour),
                node_state.wf(),
                node_state == old(self).nodes[node_index as int].state,
                node_colour == old(self).nodes[node_index as int].colour,
                old(self).wf(),
                node_index < first == old(self).nodes.len(),
                self.nodes.len() == first + k,
                self.root == 0,
                children_ids@ == Seq::new(k as nat, |j: int| (first + j) as usize),
                forall|i: int| 0 <= i < first ==> #[trigger] self.nodes[i] == old(self).nodes[i],
                forall|j: int|
                    0 <= j < moves.len() ==> (#[trigger] moves[j]) is Index && is_legal(
                        node_state@,
                        node_colour,
                        moves[j]->Index_0,
                    ),
                forall|j: int|
                    0 <= j < k ==> {
                        let child = #[trigger] self.nodes[first + j];
                        &&& child.parent == Some(node_index)
                        &&& child.children.len() == 0
                        &&& child.wins == 0
                        &&& child.visits == 0
                        &&& child.colour == node_colour.opponent()
                        &&& child.id == first + j
                        &&& child.game_move == Some(moves[j])
                        &&& child.state.wf()
                        &&& node_state@.add_stone(moves[j], node_colour) == Ok::<
                            BoardView,
                            TurnErrors,
                        >(child.state@)
                    },
            decreases possible_moves.len() - k,
        {
            let game_move = possible_moves[k];
            assert(moves[k as int] is Index);
            let placed = node_state.add_stone(game_move, node_colour);
            let new_state = Arc::new(placed.unwrap());
            let new_node = MonteCarloNode {
                state: new_state,
                parent: Some(node_index),
                children: Vec::new(),
                wins: 0,
                visits: 0,
                colour: node_colour.swap_turn(),
                id: self.nodes.len(),
                game_move: Some(game_move),
            };
            let ghost before = self.nodes@;
            self.nodes.push(new_node);
            children_ids.push(first + k);
            proof {
                assert(forall|i: int| 0 <= i < before.len() ==> self.nodes[i] == before[i]);
                assert(children_ids@ =~= Seq::new((k + 1) as nat, |j: int| (first + j) as usize));
            }
            k += 1;
        }
        let ghost grown = self.nodes@;
        self.nodes[node_index].children = children_ids;
        proof {
            assert(forall|i: int|
                0 <= i < self.nodes.len() && i != node_index ==> self.nodes[i] == grown[i]);
            assert forall|i: int| 0 <= i < self.nodes.len() implies #[trigger] self.node_wf(i) by {
                if i < first {
                    assert(old(self).node_wf(i));
                    if i == node_index {
                        assert forall|j: int|
                            0 <= j < self.nodes[i].children.len() implies i
                            < #[trigger] self.nodes[i].children[j] < self.nodes.len()
                            && self.nodes[self.nodes[i].children[j] as int].parent == Some(
                            i as usize,
                        ) by {
                            assert(self.nodes[first + j].parent == Some(node_index));
                        }
                    } else {
                        assert(self.nodes[i] == old(self).nodes[i]);
                        if i > 0 {
                            let p = old(self).nodes[i].parent->Some_0 as int;
                            assert(self.nodes[p].visits == old(self).nodes[p].visits);
                        }
                    }
                } else {
                    let j = i - first;
                    assert(self.nodes[first + j].parent == Some(node_index));
                }
            }
        }
    }

    /// Plays a random game from the position of `node_index` and says who
    /// won it. Turn by turn a legal point is picked at random for the side
    /// to move, and the side takes its turn by the rules of a playout: it
    /// passes if it has nothing useful left to play, and else places its
    /// stone on the point; then the other side moves. The game ends after
    /// two passes in a row, or when all important points are played, and
    /// the result is the winner of the board it ended on.
    pub fn simulate(&self, node_index: usize) -> (outcome: Outcome)
        requires
            self.wf(),
            node_index < self.nodes.len(),
        ensures
            outcome != Outcome::_Draw,
            PlayoutView::begin(
                self.nodes[node_index as int].state@,
                self.nodes[node_index as int].colour,
            ).results_in(outcome),
    {
        assert(self.node_wf(node_index as int));
        let mut playout = Playout::new(
            Arc::clone(&self.nodes[node_index].state),
            self.nodes[node_index].colour,
        );
        let ghost start = playout@;
        let ghost mut picks: Seq<Option<Coordinate>> = Seq::empty();

        while !playout.is_over()
            invariant
                playout.wf(),
                start.turns(picks) == Some(playout@),
            decreases usize::MAX - playout.state.group_counter, 2 - playout.consecutive_passes,
        {
            let possible_moves = GameState::get_all_possible_moves_for_board(
                &playout.state,
                playout.colour,
            );
            let picked = if possible_moves.len() > 0 {
                Some(self.select_random_move(&possible_moves))
            } else {
                None
            };
            proof {
                lemma_legal_upto(playout.state@, playout.colour, playout.state@.owners.len());
                if !playout@.must_pass() {
                    let cell = choose|cell: usize|
                        cell < playout.state@.owners.len() && #[trigger] is_legal(
                            playout.state@,
                            playout.colour,
                            cell,
                        ) && crate::region::borders(
                            crate::region::region(
                                playout.state@.grid(),
                                playout.state@.size,
                                cell,
                            ),
                            playout.state@.grid(),
                            playout.state@.size,
                            playout.colour.opponent(),
                        );
                    assert(possible_moves@.contains(Coordinate::Index(cell)));
                    let point = picked->Some_0;
                    let k = choose|k: int| 0 <= k < possible_moves@.len() && possible_moves@[k] == point;
                    assert(possible_moves@[k] is Index);
                    assert(playout.state@.add_stone(point, playout.colour) is Ok);
                }
                assert(playout@.turn(picked) is Some);
            }
            let ghost before = picks;
            match playout.take_turn(picked) {
                Some(next) => {
                    proof {
                        picks = before.push(picked);
                        assert(picks.drop_last() =~= before);
                        assert(picks.last() == picked);
                    }
                    playout = next;
                },
                None => {
                    assert(false);
                    return playout.result();
                },
            }
        }
        playout.result()
    }

    /// One of `possible_moves`, picked at random.
    pub fn select_random_move(&self, possible_moves: &Vec<Coordinate>) -> (picked: Coordinate)
        requires
            possible_moves.len() > 0,
        ensures
            possible_moves@.contains(picked),
    {
        let mut rng = rand::thread_rng();
        pick(&mut rng, possible_moves).unwrap()
    }

    /// Hands the result of a playout from `leaf_index` up to the root: every
    /// node on the way, both ends included, counts one more visit, and one
    /// more win if its colour to move is the winner.
    pub fn backpropagate(&mut self, leaf_index: usize, outcome: Outcome)
        requires
            old(self).wf(),
            leaf_index < old(self).nodes.len(),
            old(self).nodes[0].visits < usize::MAX,
        ensures
            final(self).wf(),
            final(self).tallies() == backpropagated(
                old(self).tallies(),
                leaf_index as int,
                outcome.winner(),
            ),
            final(self).nodes.len() == old(self).nodes.len(),
            forall|i: int|
                0 <= i < old(self).nodes.len() ==> {
                    let before = #[trigger] old(self).nodes[i];
                    final(self).nodes[i] == (MonteCarloNode {
                        wins: final(self).nodes[i].wins,
                        visits: final(self).nodes[i].visits,
                        ..before
                    })
                },
            forall|i: int|
                0 <= i < old(self).nodes.len() ==> {
                    let before = old(self).nodes[i];
                    let after = #[trigger] final(self).nodes[i];
                    if on_path(old(self).tallies(), leaf_index as int, i) {
                        &&& after.visits == before.visits + 1
                        &&& after.wins == before.wins + (if before.colour == outcome.winner() {
                            1int
                        } else {
                            0int
                        })
                    } else {
                        &&& after.visits == before.visits
                        &&& after.wins == before.wins
                    }
                },
    {
        let winner = outcome.into_colour();
        let ghost start = self.tallies();
        let mut current_index: usize = leaf_index;
        loop
            invariant_except_break
                forall|i: int|
                    0 <= i < self.nodes.len() ==> #[trigger] self.tallies()[i] == (if on_path(
                        start,
                        leaf_index as int,
                        i,
                    ) && !on_path(start, current_index as int, i) {
                        bumped(start[i], winner)
                    } else {
                        start[i]
                    }),
            invariant
                old(self).wf(),
                start == old(self).tallies(),
                self.nodes.len() == old(self).nodes.len(),
                self.root == 0,
                current_index < self.nodes.len(),
                on_path(start, leaf_index as int, current_index as int),
                winner == outcome.winner(),
                old(self).nodes[0].visits < usize::MAX,
                forall|i: int|
                    0 <= i < self.nodes.len() ==> {
                        let before = #[trigger] old(self).nodes[i];
                        self.nodes[i] == (MonteCarloNode {
                            wins: self.nodes[i].wins,
                            visits: self.nodes[i].visits,
                            ..before
                        })
                    },
            ensures
                self.nodes.len() == old(self).nodes.len(),
                self.root == 0,
                self.tallies() == backpropagated(start, leaf_index as int, winner),
                forall|i: int|
                    0 <= i < self.nodes.len() ==> {
                        let before = #[trigger] old(self).nodes[i];
                        self.nodes[i] == (MonteCarloNode {
                            wins: self.nodes[i].wins,
                            visits: self.nodes[i].visits,
                            ..before
                        })
                    },
            decreases current_index,
        {
            let ghost here = current_index as int;
            let ghost before = self.nodes@;
            proof {
                old(self).lemma_root_most_visited(here);
                assert(old(self).node_wf(here));
                assert(self.tallies()[here] == start[here]);
            }
            self.nodes[current_index].visits += 1;
            if self.nodes[current_index].colour == winner {
                self.nodes[current_index].wins += 1;
            }
            proof {
                assert(forall|i: int|
                    0 <= i < self.nodes.len() && i != here ==> self.nodes[i] == before[i]);
            }
            match self.nodes[current_index].parent {
                Some(parent_index) => {
                    proof {
                        assert(start[here].parent == Some(parent_index));
                        lemma_path_up(start, leaf_index as int, here);
                        assert forall|i: int| 0 <= i < self.nodes.len() implies (
                        #[trigger] self.tallies()[i] == (if on_path(start, leaf_index as int, i)
                            && !on_path(start, parent_index as int, i) {
                            bumped(start[i], winner)
                        } else {
                            start[i]
                        })) by {
                            if on_path(start, parent_index as int, i) {
                                lemma_on_path_before(start, parent_index as int, i);
                            }
                            if i != here {
                                assert(self.tallies()[i] == Seq::new(
                                    before.len(),
                                    |j: int|
                                        Tally {
                                            parent: before[j].parent,
                                            colour: before[j].colour,
                                            wins: before[j].wins as nat,
                                            visits: before[j].visits as nat,
                                        },
                                )[i]);
                            }
                        }
                    }
                    current_index = parent_index;
                },
                None => {
                    proof {
                        assert(here == 0);
                        assert forall|i: int| 0 <= i < self.nodes.len() implies (
                        #[trigger] self.tallies()[i] == backpropagated(
                            start,
                            leaf_index as int,
                            winner,
                        )[i]) by {
                            if i != here {
                                assert(!on_path(start, here, i)) by {
                                    if on_path(start, here, i) {
                                        lemma_on_path_before(start, here, i);
                                    }
                                }
                                assert(self.tallies()[i] == Seq::new(
                                    before.len(),
                                    |j: int|
                                        Tally {
                                            parent: before[j].parent,
                                            colour: before[j].colour,
                                            wins: before[j].wins as nat,
                                            visits: before[j].visits as nat,
                                        },
                                )[i]);
                            }
                        }
                        assert(self.tallies() =~= backpropagated(start, leaf_index as int, winner));
                    }
                    break ;
                },
            }
        }
        proof {
            self.lemma_backpropagated_wf(*old(self), leaf_index as int, winner);
            assert forall|i: int| 0 <= i < old(self).nodes.len() implies ({
                let before = old(self).nodes[i];
                let after = #[trigger] self.nodes[i];
                if on_path(old(self).tallies(), leaf_index as int, i) {
                    &&& after.visits == before.visits + 1
                    &&& after.wins == before.wins + (if before.colour == outcome.winner() {
                        1int
                    } else {
                        0int
                    })
                } else {
                    &&& after.visits == before.visits
                    &&& after.wins == before.wins
                }
            }) by {
                assert(self.tallies()[i] == backpropagated(
                    old(self).tallies(),
                    leaf_index as int,
                    winner,
                )[i]);
                assert(old(self).tallies()[i].visits == old(self).nodes[i].visits);
            }
        }
    }

    /// One round of search below the selected leaf `leaf_index`: the leaf is
    /// expanded, a random game is played from it, and the result is handed
    /// up to the root. Returns the result of the game.
    ///
    /// Afterwards the leaf has one new child for each of its legal moves,
    /// in their order, at the end of the arena; every node on the way from
    /// the leaf to the root has counted the game; and nothing else is
    /// changed.
    pub fn explore(&mut self, leaf_index: usize) -> (outcome: Outcome)
        requires
            old(self).wf(),
            leaf_index < old(self).nodes.len(),
            old(self).nodes[leaf_index as int].children.len() == 0,
            old(self).nodes[0].visits < usize::MAX,
        ensures
            final(self).wf(),
            outcome != Outcome::_Draw,
            PlayoutView::begin(
                old(self).nodes[leaf_index as int].state@,
                old(self).nodes[leaf_index as int].colour,
            ).results_in(outcome),
            ({
                let leaf = old(self).nodes[leaf_index as int];
                let moves = legal_moves(leaf.state@, leaf.colour);
                let first = old(self).nodes.len() as int;
                &&& final(self).nodes.len() == first + moves.len()
                &&& final(self).nodes[leaf_index as int].children@ == Seq::new(
                    moves.len(),
                    |k: int| (first + k) as usize,
                )
                &&& forall|i: int|
                    0 <= i < first ==> {
                        let before = #[trigger] old(self).nodes[i];
                        let after = final(self).nodes[i];
                        &&& after == (MonteCarloNode {
                            wins: after.wins,
                            visits: after.visits,
                            children: after.children,
                            ..before
                        })
                        &&& i != leaf_index ==> after.children == before.children
                    }
                &&& forall|i: int|
                    0 <= i < first ==> #[trigger] final(self).tallies()[i] == (if on_path(
                        old(self).tallies(),
                        leaf_index as int,
                        i,
                    ) {
                        bumped(old(self).tallies()[i], outcome.winner())
                    } else {
                        old(self).tallies()[i]
                    })
                &&& forall|k: int|
                    0 <= k < moves.len() ==> {
                        let child = #[trigger] final(self).nodes[first + k];
                        &&& child.parent == Some(leaf_index)
                        &&& child.children.len() == 0
                        &&& child.visits == 0
                        &&& child.wins == 0
                        &&& child.colour == leaf.colour.opponent()
                        &&& child.id == first + k
                        &&& child.game_move == Some(moves[k])
                        &&& leaf.state@.add_stone(moves[k], leaf.colour) == Ok::<
                            BoardView,
                            TurnErrors,
                        >(child.state@)
                    }
            }),
    {
        let ghost start = self.tallies();
        let ghost first = self.nodes.len() as int;
        self.expand(leaf_index);
        let ghost grown = self.tallies();
        let ghost mid = self.nodes@;
        let ghost moves = legal_moves(
            old(self).nodes[leaf_index as int].state@,
            old(self).nodes[leaf_index as int].colour,
        );
        let outcome = self.simulate(leaf_index);
        proof {
            assert(self.node_wf(0));
            assert(mid[0].visits == old(self).nodes[0].visits);
            assert(mid[leaf_index as int].state == old(self).nodes[leaf_index as int].state);
            assert(mid[leaf_index as int].colour == old(self).nodes[leaf_index as int].colour);
        }
        self.backpropagate(leaf_index, outcome);
        proof {
            assert(self.nodes.len() == first + moves.len());
            assert(self.nodes[leaf_index as int].children == mid[leaf_index as int].children);
            assert forall|i: int| 0 <= i < first implies ({
                let before = #[trigger] old(self).nodes[i];
                let after = self.nodes[i];
                &&& after == (MonteCarloNode {
                    wins: after.wins,
                    visits: after.visits,
                    children: after.children,
                    ..before
                })
                &&& i != leaf_index ==> after.children == before.children
            }) by {
                let between = mid[i];
                assert(self.nodes[i] == (MonteCarloNode {
                    wins: self.nodes[i].wins,
                    visits: self.nodes[i].visits,
                    ..between
                }));
                if i != leaf_index {
                    assert(between == old(self).nodes[i]);
                }
            }
            assert forall|k: int| 0 <= k < moves.len() implies ({
                let child = #[trigger] self.nodes[first + k];
                &&& child.parent == Some(leaf_index)
                &&& child.children.len() == 0
                &&& child.colour == old(self).nodes[leaf_index as int].colour.opponent()
                &&& child.id == first + k
                &&& child.game_move == Some(moves[k])
                &&& old(self).nodes[leaf_index as int].state@.add_stone(
                    moves[k],
                    old(self).nodes[leaf_index as int].colour,
                ) == Ok::<BoardView, TurnErrors>(child.state@)
            }) by {
                let between = mid[first + k];
                assert(between.parent == Some(leaf_index));
                assert(self.nodes[first + k] == (MonteCarloNode {
                    wins: self.nodes[first + k].wins,
                    visits: self.nodes[first + k].visits,
                    ..between
                }));
            }
            assert forall|i: int| 0 <= i < first implies #[trigger] self.tallies()[i] == (
            if on_path(start, leaf_index as int, i) {
                bumped(start[i], outcome.winner())
            } else {
                start[i]
            }) by {
                lemma_path_in_grown_tree(start, grown, leaf_index as int, i);
                assert(self.tallies()[i] == backpropagated(
                    grown,
                    leaf_index as int,
                    outcome.winner(),
                )[i]);
                assert(grown[i] == start[i]);
            }
            assert forall|k: int| 0 <= k < self.nodes.len() - first implies ({
                let child = #[trigger] self.nodes[first + k];
                child.visits == 0 && child.wins == 0
            }) by {
                let i = first + k;
                if on_path(grown, leaf_index as int, i) {
                    lemma_on_path_before(grown, leaf_index as int, i);
                }
                assert(self.tallies()[i] == backpropagated(
                    grown,
                    leaf_index as int,
                    outcome.winner(),
                )[i]);
            }
        }
        outcome
    }

    /// A tree whose counters are those of a well-formed tree after a result
    /// was handed up, and that is otherwise the same, is well formed.
    pub proof fn lemma_backpropagated_wf(&self, before: MonteCarloSearch, leaf: int, winner: Colour)
        requires
            before.wf(),
            0 <= leaf < before.nodes.len(),
            self.nodes.len() == before.nodes.len(),
            self.root == 0,
            self.tallies() == backpropagated(before.tallies(), leaf, winner),
            forall|i: int|
                0 <= i < before.nodes.len() ==> {
                    let node = #[trigger] before.nodes[i];
                    self.nodes[i] == (MonteCarloNode {
                        wins: self.nodes[i].wins,
                        visits: self.nodes[i].visits,
                        ..node
                    })
                },
        ensures
            self.wf(),
    {
        let start = before.tallies();
        assert(self.nodes[0].parent == before.nodes[0].parent);
        assert forall|i: int| 0 <= i < self.nodes.len() implies #[trigger] self.node_wf(i) by {
            assert(before.node_wf(i));
            assert(self.nodes[i].id == before.nodes[i].id);
            assert(self.tallies()[i] == backpropagated(start, leaf, winner)[i]);
            assert(start[i].visits == before.nodes[i].visits);
            if i > 0 {
                let p = before.nodes[i].parent->Some_0 as int;
                assert(self.tallies()[p] == backpropagated(start, leaf, winner)[p]);
                assert(start[p].visits == before.nodes[p].visits);
                assert(start[i].parent == Some(p as usize));
                if on_path(start, leaf, i) {
                    lemma_path_up(start, leaf, i);
                }
            }
            assert forall|k: int| 0 <= k < self.nodes[i].children.len() implies i
                < #[trigger] self.nodes[i].children[k] < self.nodes.len()
                && self.nodes[self.nodes[i].children[k] as int].parent == Some(i as usize) by {
                let c = before.nodes[i].children[k] as int;
                assert(self.nodes[c].parent == before.nodes[c].parent);
            }
        }
    }

    /// Makes `new_root` the root: the nodes before it are dropped, and the
    /// rest move up by `new_root` places. Every node after `new_root` must
    /// hang below it or below a later node.
    pub fn prune(&mut self, new_root: usize)
        requires
            old(self).wf(),
            new_root < old(self).nodes.len(),
            forall|i: int|
                new_root < i < old(self).nodes.len() ==> (#[trigger] old(
                    self,
                ).nodes[i]).parent->Some_0 >= new_root,
        ensures
            final(self).wf(),
            final(self).nodes.len() == old(self).nodes.len() - new_root,
            forall|i: int|
                0 <= i < final(self).nodes.len() ==> {
                    let before = old(self).nodes[i + new_root];
                    let node = #[trigger] final(self).nodes[i];
                    &&& node.state == before.state
                    &&& node.wins == before.wins
                    &&& node.visits == before.visits
                    &&& node.colour == before.colour
                    &&& node.game_move == before.game_move
                    &&& node.id == i
                    &&& node.parent == (if i == 0 {
                        None
                    } else {
                        Some((before.parent->Some_0 - new_root) as usize)
                    })
                    &&& node.children@ == Seq::new(
                        before.children.len() as nat,
                        |k: int| (before.children[k] - new_root) as usize,
                    )
                },
    {
        let mut kept = self.nodes.split_off(new_root);
        let ghost origin = kept@;
        let mut i: usize = 0;
        while i < kept.len()
            invariant
                i <= kept.len(),
                old(self).wf(),
                new_root < old(self).nodes.len(),
                kept.len() == origin.len() == old(self).nodes.len() - new_root,
                forall|j: int| 0 <= j < origin.len() ==> origin[j] == old(self).nodes[j + new_root],
                forall|j: int|
                    new_root < j < old(self).nodes.len() ==> (#[trigger] old(
                        self,
                    ).nodes[j]).parent->Some_0 >= new_root,
                forall|j: int| i <= j < kept.len() ==> #[trigger] kept[j] == origin[j],
                forall|j: int|
                    0 <= j < i ==> {
                        let before = origin[j];
                        let node = #[trigger] kept[j];
                        &&& node.state == before.state
                        &&& node.wins == before.wins
                        &&& node.visits == before.visits
                        &&& node.colour == before.colour
                        &&& node.game_move == before.game_move
                        &&& node.id == j
                        &&& node.parent == (if j == 0 {
                            None
                        } else {
                            Some((before.parent->Some_0 - new_root) as usize)
                        })
                        &&& node.children@ == Seq::new(
                            before.children.len() as nat,
                            |k: int| (before.children[k] - new_root) as usize,
                        )
                    },
            decreases kept.len() - i,
        {
            let ghost here = i as int;
            let ghost before = kept@;
            assert(old(self).node_wf(here + new_root));
            assert(kept[here] == old(self).nodes[here + new_root]);
            kept[i].id = kept[i].id - new_root;
            if i == 0 {
                kept[i].parent = None;
            } else {
                assert(old(self).nodes[here + new_root].parent->Some_0 >= new_root);
                match kept[i].parent {
                    Some(parent) => {
                        kept[i].parent = Some(parent - new_root);
                    },
                    None => {},
                }
            }
            let mut children: Vec<usize> = Vec::new();
            let mut k: usize = 0;
            while k < kept[i].children.len()
                invariant
                    i < kept.len(),
                    k <= kept[i as int].children.len(),
                    kept[i as int].children == origin[i as int].children,
                    forall|m: int|
                        0 <= m < origin[i as int].children.len() ==> #[trigger] origin[i as int].children[m]
                            > new_root,
                    children@ == Seq::new(
                        k as nat,
                        |m: int| (origin[i as int].children[m] - new_root) as usize,
                    ),
                decreases kept[i as int].children.len() - k,
            {
                children.push(kept[i].children[k] - new_root);
                assert(children@ =~= Seq::new(
                    (k + 1) as nat,
                    |m: int| (origin[i as int].children[m] - new_root) as usize,
                ));
                k += 1;
            }
            kept[i].children = children;
            proof {
                assert(forall|j: int| 0 <= j < kept.len() && j != here ==> kept[j] == before[j]);
            }
            i += 1;
        }
        self.nodes = kept;
        self.root = 0;
        proof {
            assert forall|j: int| 0 <= j < self.nodes.len() implies #[trigger] self.node_wf(j) by {
                assert(old(self).node_wf(j + new_root));
                let before = old(self).nodes[j + new_root];
                assert(origin[j] == before);
                if j > 0 {
                    let p = before.parent->Some_0 as int;
                    assert(self.nodes[p - new_root].visits == old(self).nodes[p].visits);
                }
                assert forall|k: int| 0 <= k < self.nodes[j].children.len() implies j
                    < #[trigger] self.nodes[j].children[k] < self.nodes.len()
                    && self.nodes[self.nodes[j].children[k] as int].parent == Some(j as usize) by {
                    let c = before.children[k] as int;
                    assert(old(self).nodes[c].parent == Some((j + new_root) as usize));
                    assert(origin[c - new_root] == old(self).nodes[c]);
                }
            }
        }
    }

    /// How the win rates of the nodes `a` and `b` compare.
    pub fn compare_children(&self, a: usize, b: usize) -> (order: Ordering)
        requires
            a < self.nodes.len(),
            b < self.nodes.len(),
        ensures
            order is Less <==> !self.rate_le_at(b, a),
            order is Greater <==> !self.rate_le_at(a, b),
    {
        let first = &self.nodes[a];
        let second = &self.nodes[b];
        if !rate_at_most(first.wins, first.visits, second.wins, second.visits) {
            proof {
                self.lemma_rate_total(a, b);
            }
            Ordering::Greater
        } else if !rate_at_most(second.wins, second.visits, first.wins, first.visits) {
            Ordering::Less
        } else {
            Ordering::Equal
        }
    }

    /// The child of the root with the highest win rate, `None` if the root
    /// has no children. Among children of equal rate any may be returned.
    pub fn best_child(&self) -> (best: Option<usize>)
        requires
            self.wf(),
        ensures
            match best {
                None => self.nodes[0].children.len() == 0,
                Some(child) => self.nodes[0].children@.contains(child) && forall|k: int|
                    0 <= k < self.nodes[0].children.len() ==> self.rate_le_at(
                        #[trigger] self.nodes[0].children[k],
                        child,
                    ),
            },
    {
        assert(self.node_wf(0));
        par_best(self, &self.nodes[self.root].children)
    }

    /// The move that leads to the child of the root with the highest win
    /// rate, `None` if the root has no children.
    pub fn best_move(&self) -> (best: Option<Coordinate>)
        requires
            self.wf(),
        ensures
            match best {
                None => self.nodes[0].children.len() == 0,
                Some(point) => exists|child: usize|
                    #![trigger self.nodes[child as int]]
                    self.nodes[0].children@.contains(child) && self.nodes[child as int].game_move
                        == Some(point) && forall|k: int|
                        0 <= k < self.nodes[0].children.len() ==> self.rate_le_at(
                            #[trigger] self.nodes[0].children[k],
                            child,
                        ),
            },
    {
        assert(self.node_wf(0));
        match self.best_child() {
            None => None,
            Some(child) => {
                proof {
                    let k = choose|k: int|
                        0 <= k < self.nodes[0].children.len() && self.nodes[0].children[k] == child;
                    assert(self.node_wf(child as int));
                }
                self.nodes[child].game_move
            },
        }
    }
}

/// rayon's `par_iter` over `children` and `max_by` with
/// `compare_children`: a child that no other child beats, `None` if there is
/// none. rayon does not say which of several best it returns, and the
/// contract does not either.
#[verifier::external_body]
fn par_best(search: &MonteCarloSearch, children: &Vec<usize>) -> (best: Option<usize>)
    requires
        forall|k: int| 0 <= k < children.len() ==> #[trigger] children[k] < search.nodes.len(),
    ensures
        match best {
            None => children.len() == 0,
            Some(child) => children@.contains(child) && forall|k: int|
                0 <= k < children.len() ==> search.rate_le_at(#[trigger] children[k], child),
        },
{
    children.par_iter().max_by(|a, b| search.compare_children(**a, **b)).copied()
}


/// New nodes at the end of the arena do not change the way up from an old
/// node.
pub proof fn lemma_path_in_grown_tree(before: Seq<Tally>, after: Seq<Tally>, leaf: int, node: int)
    requires
        before.len() <= after.len(),
        forall|i: int| 0 <= i < before.len() ==> #[trigger] after[i].parent == before[i].parent,
        0 <= leaf < before.len(),
    ensures
        on_path(after, leaf, node) == on_path(before, leaf, node),
    decreases leaf,
{
    if node != leaf {
        assert(after[leaf].parent == before[leaf].parent);
        if let Some(p) = before[leaf].parent {
            if p < leaf {
                lemma_path_in_grown_tree(before, after, p as int, node);
            }
        }
    }
}

/// The parent of a node on the way up from `leaf` is on that way too.
pub proof fn lemma_path_up(tallies: Seq<Tally>, leaf: int, node: int)
    requires
        on_path(tallies, leaf, node),
        0 <= node < tallies.len(),
        tallies[node].parent matches Some(p) && p < node,
    ensures
        on_path(tallies, leaf, tallies[node].parent->Some_0 as int),
    decreases leaf,
{
    let p = tallies[node].parent->Some_0 as int;
    assert(on_path(tallies, p, p));
    if node != leaf {
        lemma_path_up(tallies, tallies[leaf].parent->Some_0 as int, node);
    }
}

/// After any series of playouts has been handed up, a node has gained one
/// visit for each playout that went through it, and it has no more wins
/// than visits if that held before.
pub proof fn lemma_counters_count_playouts(
    tallies: Seq<Tally>,
    playouts: Seq<(int, Colour)>,
    node: int,
)
    requires
        0 <= node < tallies.len(),
    ensures
        backpropagated_all(tallies, playouts).len() == tallies.len(),
        backpropagated_all(tallies, playouts)[node].visits == tallies[node].visits
            + visits_through(tallies, playouts, node),
        tallies[node].wins <= tallies[node].visits ==> backpropagated_all(
            tallies,
            playouts,
        )[node].wins <= backpropagated_all(tallies, playouts)[node].visits,
        backpropagated_all(tallies, playouts)[node].wins >= tallies[node].wins,
        forall|from: int, to: int|
            on_path(backpropagated_all(tallies, playouts), from, to) == on_path(tallies, from, to),
    decreases playouts.len(),
{
    if playouts.len() > 0 {
        let earlier = backpropagated_all(tallies, playouts.drop_last());
        lemma_counters_count_playouts(tallies, playouts.drop_last(), node);
        let leaf = playouts.last().0;
        let winner = playouts.last().1;
        assert forall|from: int, to: int|
            on_path(backpropagated(earlier, leaf, winner), from, to) == on_path(
                tallies,
                from,
                to,
            ) by {
            lemma_path_stable(earlier, leaf, winner, from, to);
        }
    }
}

/// Counters count playouts: a node that starts without visits and wins has,
/// after N playouts that all went through it were handed up, exactly N
/// visits and between none and N wins.
pub proof fn lemma_counters_from_zero(
    tallies: Seq<Tally>,
    playouts: Seq<(int, Colour)>,
    node: int,
)
    requires
        0 <= node < tallies.len(),
        tallies[node].visits == 0,
        tallies[node].wins == 0,
        forall|k: int|
            0 <= k < playouts.len() ==> on_path(tallies, (#[trigger] playouts[k]).0, node),
    ensures
        backpropagated_all(tallies, playouts)[node].visits == playouts.len(),
        0 <= backpropagated_all(tallies, playouts)[node].wins <= backpropagated_all(
            tallies,
            playouts,
        )[node].visits,
{
    lemma_counters_count_playouts(tallies, playouts, node);
    lemma_all_go_through(tallies, playouts, node);
}

/// If every playout of a series went through a node, the number that went
/// through it is the length of the series.
pub proof fn lemma_all_go_through(tallies: Seq<Tally>, playouts: Seq<(int, Colour)>, node: int)
    requires
        forall|k: int|
            0 <= k < playouts.len() ==> on_path(tallies, (#[trigger] playouts[k]).0, node),
    ensures
        visits_through(tallies, playouts, node) == playouts.len(),
    decreases playouts.len(),
{
    if playouts.len() > 0 {
        let earlier = playouts.drop_last();
        assert forall|k: int| 0 <= k < earlier.len() implies on_path(
            tallies,
            (#[trigger] earlier[k]).0,
            node,
        ) by {
            assert(earlier[k] == playouts[k]);
        }
        lemma_all_go_through(tallies, earlier, node);
        assert(on_path(tallies, playouts[playouts.len() - 1].0, node));
    }
}

/// A drawn playout is a win for no side: handing it up adds a visit to
/// every node on the way, and a win only to a node whose colour to move is
/// `Empty`.
pub proof fn lemma_draw_wins_nothing(tallies: Seq<Tally>, leaf: int, node: int)
    requires
        0 <= node < tallies.len(),
        on_path(tallies, leaf, node),
        tallies[node].colour != Colour::Empty,
    ensures
        backpropagated(tallies, leaf, Outcome::_Draw.winner())[node].wins == tallies[node].wins,
        backpropagated(tallies, leaf, Outcome::_Draw.winner())[node].visits == tallies[node].visits
            + 1,
{
}

} // verus!
