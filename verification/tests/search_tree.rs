use go_engine::board_state::BoardState;
use go_engine::colour::{Colour, Outcome};
use go_engine::coordinate::Coordinate;
use go_engine::search::{rate_at_most, search_goes_on, MonteCarloSearch, Selection};
use std::cmp::Ordering;

fn fresh(size: usize) -> MonteCarloSearch {
    MonteCarloSearch::new(BoardState::new(size), Colour::Black)
}

#[test]
fn a_new_tree_is_its_root() {
    let search = fresh(3);
    assert_eq!(search.nodes.len(), 1);
    assert_eq!(search.root, 0);
    let root = search._get_root();
    assert_eq!(root.id, 0);
    assert!(root.parent.is_none());
    assert!(root.children.is_empty());
    assert_eq!(root.wins, 0);
    assert_eq!(root.visits, 0);
    assert_eq!(root.colour, Colour::Black);
    assert!(root.game_move.is_none());
    assert_eq!(search.select_step(0), Selection::Leaf);
    assert!(search.best_child().is_none());
    assert!(search.best_move().is_none());
}

#[test]
fn expansion_makes_a_child_for_every_legal_move() {
    let mut search = fresh(3);
    search.expand(0);
    assert_eq!(search.nodes.len(), 10);
    assert_eq!(search.nodes[0].children, vec![1, 2, 3, 4, 5, 6, 7, 8, 9]);
    for k in 0..9 {
        let child = &search.nodes[k + 1];
        assert_eq!(child.id, k + 1);
        assert_eq!(child.parent, Some(0));
        assert!(child.children.is_empty());
        assert_eq!(child.wins, 0);
        assert_eq!(child.visits, 0);
        assert_eq!(child.colour, Colour::White);
        assert_eq!(child.game_move.unwrap().get_index(), k);
        let grid = child.state.get_grid();
        assert_eq!(grid[k], Colour::Black);
        assert_eq!(grid.iter().filter(|c| **c != Colour::Empty).count(), 1);
    }
    // the root's own position is untouched
    assert_eq!(search.nodes[0].state.get_grid(), vec![Colour::Empty; 9]);
}

#[test]
fn expansion_of_a_later_leaf_adds_only_its_own_children() {
    let mut search = fresh(3);
    search.expand(0);
    search.expand(5);
    assert_eq!(search.nodes.len(), 18);
    assert_eq!(search.nodes[5].children, vec![10, 11, 12, 13, 14, 15, 16, 17]);
    assert_eq!(search.nodes[0].children, vec![1, 2, 3, 4, 5, 6, 7, 8, 9]);
    assert!(search.nodes[4].children.is_empty());
    for k in 10..18 {
        assert_eq!(search.nodes[k].parent, Some(5));
        assert_eq!(search.nodes[k].colour, Colour::Black);
    }
}

#[test]
fn a_position_without_legal_moves_gets_no_children() {
    // a board of one cell: a stone there would have no liberty
    let mut search = fresh(1);
    search.expand(0);
    assert_eq!(search.nodes.len(), 1);
    assert!(search.nodes[0].children.is_empty());
    assert_eq!(search.select_step(0), Selection::Leaf);
}

#[test]
fn selection_tries_every_child_once() {
    let mut search = fresh(3);
    search.expand(0);
    assert_eq!(search.select_step(0), Selection::Unvisited(1));
    search.backpropagate(1, Outcome::BlackWin);
    assert_eq!(search.select_step(0), Selection::Unvisited(2));
    for child in 2..10 {
        search.backpropagate(child, Outcome::WhiteWin);
    }
    assert_eq!(search.select_step(0), Selection::Ranked);
    assert_eq!(search.select_step(3), Selection::Leaf);
}

#[test]
fn backpropagation_counts_visits_and_wins_on_the_way_up() {
    let mut search = fresh(3);
    search.expand(0);
    search.expand(5);
    // node 12 (Black to move) below node 5 (White to move) below the root
    search.backpropagate(12, Outcome::BlackWin);
    assert_eq!((search.nodes[12].visits, search.nodes[12].wins), (1, 1));
    assert_eq!((search.nodes[5].visits, search.nodes[5].wins), (1, 0));
    assert_eq!((search.nodes[0].visits, search.nodes[0].wins), (1, 1));
    assert_eq!((search.nodes[4].visits, search.nodes[4].wins), (0, 0));
    assert_eq!((search.nodes[11].visits, search.nodes[11].wins), (0, 0));
    search.backpropagate(5, Outcome::WhiteWin);
    assert_eq!((search.nodes[12].visits, search.nodes[12].wins), (1, 1));
    assert_eq!((search.nodes[5].visits, search.nodes[5].wins), (2, 1));
    assert_eq!((search.nodes[0].visits, search.nodes[0].wins), (2, 1));
    search.backpropagate(0, Outcome::WhiteWin);
    assert_eq!((search.nodes[0].visits, search.nodes[0].wins), (3, 1));
    assert_eq!((search.nodes[5].visits, search.nodes[5].wins), (2, 1));
}

#[test]
fn counters_after_many_backpropagations() {
    let mut search = fresh(3);
    search.expand(0);
    let mut through_three = 0;
    for round in 0..40 {
        let leaf = 1 + round % 9;
        let outcome = if round % 3 == 0 { Outcome::BlackWin } else { Outcome::WhiteWin };
        search.backpropagate(leaf, outcome);
        if leaf == 3 {
            through_three += 1;
        }
    }
    assert_eq!(search.nodes[0].visits, 40);
    assert_eq!(search.nodes[3].visits, through_three);
    for node in &search.nodes {
        assert!(node.wins <= node.visits);
    }
    let total: usize = search.nodes[1..].iter().map(|n| n.visits).sum();
    assert_eq!(total, 40);
    // the root is Black's: it wins when Black does
    assert_eq!(search.nodes[0].wins, 14);
}

#[test]
fn a_draw_counts_as_a_visit_for_all_and_a_win_for_none() {
    let mut search = fresh(3);
    search.expand(0);
    search.backpropagate(2, Outcome::_Draw);
    assert_eq!((search.nodes[2].visits, search.nodes[2].wins), (1, 0));
    assert_eq!((search.nodes[0].visits, search.nodes[0].wins), (1, 0));
}

#[test]
fn win_rates_compare_by_cross_multiplication() {
    assert!(rate_at_most(1, 2, 2, 3));
    assert!(!rate_at_most(2, 3, 1, 2));
    assert!(rate_at_most(1, 2, 2, 4));
    assert!(rate_at_most(2, 4, 1, 2));
    assert!(rate_at_most(0, 0, 0, 5));
    assert!(rate_at_most(0, 5, 0, 0));
    assert!(!rate_at_most(1, 5, 0, 0));
    assert!(rate_at_most(0, 0, 1, 5));
    assert!(rate_at_most(usize::MAX - 1, usize::MAX, usize::MAX, usize::MAX));
    assert!(!rate_at_most(usize::MAX, usize::MAX, usize::MAX - 1, usize::MAX));
}

#[test]
fn the_best_child_has_the_highest_win_rate() {
    let mut search = fresh(3);
    search.expand(0);
    search.nodes[0].visits = 20;
    search.nodes[0].wins = 9;
    for child in 1..10 {
        search.nodes[child].visits = 2;
        search.nodes[child].wins = 1;
    }
    search.nodes[4].visits = 4;
    search.nodes[4].wins = 3;
    search.nodes[7].visits = 2;
    search.nodes[7].wins = 0;
    assert_eq!(search.compare_children(4, 1), Ordering::Greater);
    assert_eq!(search.compare_children(1, 4), Ordering::Less);
    assert_eq!(search.compare_children(1, 2), Ordering::Equal);
    assert_eq!(search.compare_children(7, 2), Ordering::Less);
    assert_eq!(search.best_child(), Some(4));
    assert_eq!(search.best_move().unwrap().get_index(), 3);
}

#[test]
fn an_unvisited_child_is_not_preferred_to_a_winning_one() {
    let mut search = fresh(3);
    search.expand(0);
    search.nodes[0].visits = 1;
    search.nodes[0].wins = 0;
    search.nodes[6].visits = 1;
    search.nodes[6].wins = 1;
    assert_eq!(search.best_child(), Some(6));
}

#[test]
fn among_equal_children_one_of_them_is_returned() {
    let mut search = fresh(3);
    search.expand(0);
    let best = search.best_child().unwrap();
    assert!((1..10).contains(&best));
    assert_eq!(search.best_move().unwrap().get_index(), best - 1);
}

#[test]
fn a_playout_has_a_winner() {
    let mut search = fresh(3);
    search.expand(0);
    for node in [0, 1, 5, 9] {
        let outcome = search.simulate(node);
        assert!(outcome == Outcome::BlackWin || outcome == Outcome::WhiteWin);
    }
    // the tree is not changed by playouts
    assert_eq!(search.nodes.len(), 10);
    assert_eq!(search.nodes[0].visits, 0);
    assert_eq!(search.nodes[5].state.get_grid()[4], Colour::Black);
}

#[test]
fn a_playout_on_a_larger_board_has_a_winner() {
    let search = fresh(5);
    let outcome = search.simulate(0);
    assert!(outcome == Outcome::BlackWin || outcome == Outcome::WhiteWin);
}

#[test]
fn a_playout_of_a_settled_position_scores_it() {
    // Black wall on column 2 of a 5x5 board: all important points are
    // played, and Black owns everything.
    let mut board = BoardState::new(5);
    for row in 0..5 {
        board = board.add_stone(Coordinate::Index(row * 5 + 2), Colour::Black).unwrap();
    }
    let search = MonteCarloSearch::new(board, Colour::White);
    assert_eq!(search.simulate(0), Outcome::BlackWin);
}

#[test]
fn playout_moves_come_from_the_list() {
    let search = fresh(3);
    let moves = vec![Coordinate::Index(1), Coordinate::Index(4)];
    for _ in 0..40 {
        let picked = search.select_random_move(&moves).get_index();
        assert!(picked == 1 || picked == 4);
    }
    assert_eq!(search.select_random_move(&vec![Coordinate::Index(8)]).get_index(), 8);
}

#[test]
fn full_rounds_of_search_keep_the_counters_in_step() {
    let mut search = fresh(3);
    let rounds = 12;
    for _ in 0..rounds {
        let mut node = 0;
        let leaf = loop {
            match search.select_step(node) {
                Selection::Leaf => break node,
                Selection::Unvisited(child) => node = child,
                Selection::Ranked => node = search.nodes[node].children[0],
            }
        };
        search.expand(leaf);
        let outcome = search.simulate(leaf);
        search.backpropagate(leaf, outcome);
    }
    assert_eq!(search.nodes[0].visits, rounds);
    for (i, node) in search.nodes.iter().enumerate() {
        assert_eq!(node.id, i);
        assert!(node.wins <= node.visits);
        if let Some(parent) = node.parent {
            assert!(parent < i);
            assert!(node.visits <= search.nodes[parent].visits);
            assert!(search.nodes[parent].children.contains(&i));
        }
    }
    assert!(search.best_move().is_some());
}

#[test]
fn pruning_at_the_root_changes_nothing() {
    let mut search = fresh(3);
    search.expand(0);
    search.backpropagate(3, Outcome::BlackWin);
    search.prune(0);
    assert_eq!(search.nodes.len(), 10);
    assert_eq!(search.root, 0);
    assert_eq!(search.nodes[0].children, vec![1, 2, 3, 4, 5, 6, 7, 8, 9]);
    assert_eq!(search.nodes[3].parent, Some(0));
    assert_eq!(search.nodes[3].visits, 1);
}

#[test]
fn pruning_moves_the_last_subtree_to_the_front() {
    let mut search = fresh(3);
    search.expand(0);
    search.expand(9);
    search.backpropagate(12, Outcome::WhiteWin);
    assert_eq!(search.nodes.len(), 18);
    search.prune(9);
    assert_eq!(search.root, 0);
    assert_eq!(search.nodes.len(), 9);
    let root = &search.nodes[0];
    assert_eq!(root.id, 0);
    assert!(root.parent.is_none());
    assert_eq!(root.children, vec![1, 2, 3, 4, 5, 6, 7, 8]);
    assert_eq!(root.colour, Colour::White);
    assert_eq!(root.game_move.unwrap().get_index(), 8);
    assert_eq!((root.visits, root.wins), (1, 1));
    assert_eq!(root.state.get_grid()[8], Colour::Black);
    for k in 1..9 {
        assert_eq!(search.nodes[k].id, k);
        assert_eq!(search.nodes[k].parent, Some(0));
    }
    assert_eq!((search.nodes[3].visits, search.nodes[3].wins), (1, 0));
}

#[test]
fn a_round_expands_plays_and_counts() {
    let mut search = fresh(3);
    let outcome = search.explore(0);
    assert!(outcome == Outcome::BlackWin || outcome == Outcome::WhiteWin);
    assert_eq!(search.nodes.len(), 10);
    assert_eq!(search.nodes[0].visits, 1);
    assert_eq!(search.nodes[0].wins, if outcome == Outcome::BlackWin { 1 } else { 0 });
    for child in 1..10 {
        assert_eq!(search.nodes[child].visits, 0);
        assert_eq!(search.nodes[child].parent, Some(0));
    }
    let outcome = search.explore(4);
    assert_eq!(search.nodes.len(), 18);
    assert_eq!(search.nodes[0].visits, 2);
    assert_eq!(search.nodes[4].visits, 1);
    assert_eq!(search.nodes[4].wins, if outcome == Outcome::WhiteWin { 1 } else { 0 });
    assert_eq!(search.nodes[3].visits, 0);
}

#[test]
fn the_search_stops_when_time_or_rounds_run_out() {
    assert!(search_goes_on(0, 5000, 0, 25000));
    assert!(search_goes_on(4999, 5000, 24999, 25000));
    assert!(!search_goes_on(5000, 5000, 0, 25000));
    assert!(!search_goes_on(0, 5000, 25000, 25000));
    assert!(!search_goes_on(9000, 5000, 30000, 25000));
    assert!(!search_goes_on(0, 0, 0, 1));
    assert!(!search_goes_on(0, 1, 0, 0));
}

#[test]
fn a_round_leaves_the_rest_of_the_tree_alone() {
    let mut search = fresh(3);
    search.explore(0);
    search.explore(4);
    assert_eq!(search.nodes[0].children, vec![1, 2, 3, 4, 5, 6, 7, 8, 9]);
    assert_eq!(search.nodes[4].children, vec![10, 11, 12, 13, 14, 15, 16, 17]);
    assert!(search.nodes[3].children.is_empty());
    for k in 0..8 {
        let child = &search.nodes[10 + k];
        assert_eq!(child.id, 10 + k);
        assert_eq!(child.parent, Some(4));
        assert_eq!(child.colour, Colour::Black);
        assert!(child.children.is_empty());
        assert_eq!(child.state.get_grid()[3], Colour::Black);
    }
    assert_eq!(search.nodes[4].colour, Colour::White);
    assert_eq!(search.nodes[4].game_move.unwrap().get_index(), 3);
    assert_eq!(search.nodes[4].parent, Some(0));
}
