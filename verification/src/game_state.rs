//! A game in progress: the board, whose turn it is, and the history; the
//! legal moves of a position and its score.

use vstd::prelude::*;
use rayon::iter::{IntoParallelIterator, ParallelIterator};
use crate::board_state::BoardState;
use crate::board_view::BoardView;
use crate::colour::{Colour, Outcome};
use crate::coordinate::Coordinate;
use crate::fails::TurnErrors;
use crate::geometry::cell_count;
use crate::group_state::GroupState;
use crate::random::index_below;
use crate::region::{borders, region};
use crate::territory::{count_of, lemma_count_bound, lemma_empty_region_cell,
    territory_of};
use crate::tree::GameTree;
use crate::turn::Turn;

verus! {

broadcast use vstd::std_specs::hash::group_hash_axioms;

/// Whether the engine answers each move of the player by itself.
pub const AUTO_PLAY: bool = false;

/// Whether the engine plays both sides.
pub const _SELF_PLAY: bool = false;

/// Whether the engine plays against random moves.
pub const _WEAK_PLAY: bool = false;

/// What White is given for moving second, in half points.
pub const KOMI_HALF_POINTS: u128 = 1;

/// Whether a stone of `colour` may be placed on `cell`.
pub open spec fn is_legal(board: BoardView, colour: Colour, cell: usize) -> bool {
    board.add_stone(Coordinate::Index(cell), colour) is Ok
}

/// The legal moves of `colour` among the first `upto` cells, in the order of
/// the cells.
pub open spec fn legal_upto(board: BoardView, colour: Colour, upto: nat) -> Seq<Coordinate>
    decreases upto,
{
    if upto == 0 {
        Seq::empty()
    } else {
        let rest = legal_upto(board, colour, (upto - 1) as nat);
        if is_legal(board, colour, (upto - 1) as usize) {
            rest.push(Coordinate::Index((upto - 1) as usize))
        } else {
            rest
        }
    }
}

/// All legal moves of `colour`, in the order of the cells.
pub open spec fn legal_moves(board: BoardView, colour: Colour) -> Seq<Coordinate> {
    legal_upto(board, colour, board.owners.len())
}

/// The legal moves are exactly the legal cells below the bound, in index
/// form.
pub proof fn lemma_legal_upto(board: BoardView, colour: Colour, upto: nat)
    requires
        upto <= usize::MAX,
    ensures
        forall|k: int|
            0 <= k < legal_upto(board, colour, upto).len() ==> (#[trigger] legal_upto(
                board,
                colour,
                upto,
            )[k]) is Index && legal_upto(board, colour, upto)[k]->Index_0 < upto && is_legal(
                board,
                colour,
                legal_upto(board, colour, upto)[k]->Index_0,
            ),
        forall|cell: usize|
            cell < upto && is_legal(board, colour, cell) ==> legal_upto(
                board,
                colour,
                upto,
            ).contains(Coordinate::Index(cell)),
        legal_upto(board, colour, upto).len() <= upto,
    decreases upto,
{
    if upto > 0 {
        let rest = legal_upto(board, colour, (upto - 1) as nat);
        lemma_legal_upto(board, colour, (upto - 1) as nat);
        let all = legal_upto(board, colour, upto);
        assert forall|cell: usize| cell < upto && is_legal(board, colour, cell) implies all.contains(
            Coordinate::Index(cell),
        ) by {
            if cell < upto - 1 {
                let k = choose|k: int| 0 <= k < rest.len() && rest[k] == Coordinate::Index(cell);
                assert(all[k] == Coordinate::Index(cell));
            } else {
                assert(all[all.len() - 1] == Coordinate::Index(cell));
            }
        }
    }
}

/// The score of `colour` in whole points: its stones and the empty cells
/// that it surrounds.
pub open spec fn score_of(grid: Seq<Colour>, size: usize, colour: Colour) -> nat {
    count_of(grid, colour) + territory_of(grid, size, colour).len()
}

/// Who wins the position that `grid` shows. White's half point of komi
/// decides equal scores, so there is no draw.
pub open spec fn outcome_of(grid: Seq<Colour>, size: usize) -> Outcome {
    if score_of(grid, size, Colour::Black) > score_of(grid, size, Colour::White) {
        Outcome::BlackWin
    } else {
        Outcome::WhiteWin
    }
}

/// Whether every legal move of `colour` lies in an empty area that touches
/// no stone of the other colour: `colour` has nothing useful left to play.
pub open spec fn no_useful_moves(board: BoardView, colour: Colour) -> bool {
    forall|cell: usize|
        cell < board.owners.len() && #[trigger] is_legal(board, colour, cell) ==> !borders(
            region(board.grid(), board.size, cell),
            board.grid(),
            board.size,
            colour.opponent(),
        )
}

/// The move on `cell`, if a stone of `colour` may be placed there.
pub fn legal_move_at(board: &BoardState, colour: Colour, cell: usize) -> (found: Option<
    Coordinate,
>)
    requires
        board.wf(),
    ensures
        found == (if is_legal(board@, colour, cell) {
            Some(Coordinate::Index(cell))
        } else {
            None
        }),
{
    let coordinate = Coordinate::Index(cell);
    let new_position = board.add_stone(coordinate, colour);
    if new_position.is_ok() {
        Some(coordinate)
    } else {
        None
    }
}

/// rayon's `into_par_iter` on the range of cells, `filter_map` with
/// `legal_move_at` and `collect` into a vector: the legal moves of `colour`.
/// The contract claims that the collected vector keeps the order of the
/// range, as a sequential `filter_map` would.
#[verifier::external_body]
fn par_legal_moves(board: &BoardState, colour: Colour, cells: usize) -> (moves: Vec<Coordinate>)
    requires
        board.wf(),
        cells == board@.owners.len(),
    ensures
        moves@ == legal_moves(board@, colour),
{
    (0..cells).into_par_iter().filter_map(|i| legal_move_at(board, colour, i)).collect()
}

/// The numbers of black and of white stones on `grid`.
pub fn count_stones(grid: &Vec<Colour>) -> (counts: (usize, usize))
    ensures
        counts.0 == count_of(grid@, Colour::Black),
        counts.1 == count_of(grid@, Colour::White),
{
    let mut black: usize = 0;
    let mut white: usize = 0;
    let mut i: usize = 0;
    while i < grid.len()
        invariant
            i <= grid.len(),
            black == count_of(grid@.take(i as int), Colour::Black),
            white == count_of(grid@.take(i as int), Colour::White),
            black <= i,
            white <= i,
        decreases grid.len() - i,
    {
        proof {
            assert(grid@.take(i + 1).drop_last() =~= grid@.take(i as int));
            assert(grid@.take(i + 1).last() == grid@[i as int]);
        }
        match grid[i] {
            Colour::Black => {
                black += 1;
            },
            Colour::White => {
                white += 1;
            },
            Colour::Empty => {},
        }
        i += 1;
    }
    assert(grid@.take(grid.len() as int) =~= grid@);
    (black, white)
}

pub struct GameState {
    pub board_state: BoardState,
    /// The colour that is to move.
    pub turn: Colour,
    pub game_tree: GameTree,
    pub size: usize,
}

impl GameState {
    /// The invariant of a game.
    pub open spec fn wf(&self) -> bool {
        &&& self.board_state.wf()
        &&& self.game_tree.wf()
        &&& self.board_state.size == self.size
    }

    /// A new game on an empty board of side `board_size`; Black moves first.
    pub fn new(board_size: usize) -> (game: Self)
        requires
            cell_count(board_size) <= usize::MAX,
        ensures
            game.wf(),
            game.size == board_size,
            game.turn == Colour::Black,
            game.board_state@.is_fresh(board_size),
            game.game_tree.board_states.len() == 1,
            game.game_tree.pointer == 0,
            game.game_tree.board_states[0].0 is Pass,
            game.game_tree.board_states[0].1@.is_fresh(board_size),
    {
        GameState {
            board_state: BoardState::new(board_size),
            turn: Colour::Black,
            game_tree: GameTree::new(board_size),
            size: board_size,
        }
    }

    /// Hands the move to the other colour.
    pub fn swap_turn(&mut self)
        ensures
            final(self).turn == old(self).turn.opponent(),
            final(self).board_state == old(self).board_state,
            final(self).game_tree == old(self).game_tree,
            final(self).size == old(self).size,
    {
        self.turn = self.turn.swap_turn();
    }

    /// Tries to place a stone of the colour to move on `coordinate`. Returns
    /// whether the stone was placed; if so, the move passes to the other
    /// colour. Nothing is placed while the history pointer looks at an
    /// earlier position.
    pub fn play_move(&mut self, coordinate: Coordinate) -> (played: bool)
        requires
            old(self).wf(),
        ensures
            final(self).wf(),
            final(self).game_tree == old(self).game_tree,
            final(self).size == old(self).size,
            played == (old(self).game_tree.pointer == old(self).game_tree.board_states.len() - 1
                && old(self).board_state@.add_stone(coordinate, old(self).turn) is Ok),
            played ==> old(self).board_state@.add_stone(coordinate, old(self).turn) == Ok::<
                BoardView,
                TurnErrors,
            >(final(self).board_state@) && final(self).turn == old(self).turn.opponent(),
            !played ==> final(self).board_state == old(self).board_state && final(self).turn
                == old(self).turn,
    {
        let new_position = self.board_state.add_stone(coordinate, self.turn);
        if !self.game_tree.up_to_date() {
            return false;
        }
        match new_position {
            Ok(state) => {
                self.board_state = state;
                self.swap_turn();
            },
            Err(_error) => {
                return false;
            },
        }
        return true;
    }

    /// Whether `after` is `before` with one more entry, the turn `turn` with
    /// a board that shows `board`, and points at that entry.
    pub open spec fn recorded(before: GameTree, after: GameTree, turn: Turn, board: BoardView)
        -> bool {
        let n = before.board_states.len() as int;
        &&& after.board_states.len() == n + 1
        &&& after.pointer == n
        &&& forall|i: int| 0 <= i < n ==> #[trigger] after.board_states[i] == before.board_states[i]
        &&& after.board_states[n].0 == turn
        &&& after.board_states[n].1@ == board
    }

    /// Plays a turn: a move is recorded in the history if it was legal; a
    /// pass hands the move over and is recorded; a resignation is recorded.
    pub fn play_turn(&mut self, turn: Turn)
        requires
            old(self).wf(),
        ensures
            final(self).wf(),
            final(self).size == old(self).size,
            match turn {
                Turn::Move(coordinate) => {
                    let legal = old(self).game_tree.pointer == old(
                        self,
                    ).game_tree.board_states.len() - 1 && old(self).board_state@.add_stone(
                        coordinate,
                        old(self).turn,
                    ) is Ok;
                    if legal {
                        &&& old(self).board_state@.add_stone(coordinate, old(self).turn) == Ok::<
                            BoardView,
                            TurnErrors,
                        >(final(self).board_state@)
                        &&& final(self).turn == old(self).turn.opponent()
                        &&& GameState::recorded(
                            old(self).game_tree,
                            final(self).game_tree,
                            turn,
                            final(self).board_state@,
                        )
                    } else {
                        &&& final(self).board_state == old(self).board_state
                        &&& final(self).turn == old(self).turn
                        &&& final(self).game_tree == old(self).game_tree
                    }
                },
                Turn::Pass => {
                    &&& final(self).board_state == old(self).board_state
                    &&& final(self).turn == old(self).turn.opponent()
                    &&& GameState::recorded(
                        old(self).game_tree,
                        final(self).game_tree,
                        turn,
                        old(self).board_state@,
                    )
                },
                Turn::Resign => {
                    &&& final(self).board_state == old(self).board_state
                    &&& final(self).turn == old(self).turn
                    &&& GameState::recorded(
                        old(self).game_tree,
                        final(self).game_tree,
                        turn,
                        old(self).board_state@,
                    )
                },
            },
    {
        let ghost before = self.game_tree.board_states@;
        match turn {
            Turn::Move(coordinate) => {
                if self.play_move(coordinate) {
                    self.game_tree.add_move(turn, self.board_state.clone());
                }
            },
            Turn::Pass => {
                self.swap_turn();
                self.game_tree.add_move(turn, self.board_state.clone());
            },
            Turn::Resign => { self.game_tree.add_move(turn, self.board_state.clone()) },
        }
        proof {
            if self.game_tree.board_states.len() > before.len() {
                assert(self.game_tree.board_states@ == before.push(
                    self.game_tree.board_states@[before.len() as int],
                ));
                assert(forall|i: int|
                    0 <= i < before.len() ==> self.game_tree.board_states[i] == before[i]);
            }
        }
    }

    /// All legal moves of `colour` on the current board, found by trying
    /// every cell in turn.
    pub fn get_all_possible_moves(&self, colour: Colour) -> (moves: Vec<Coordinate>)
        requires
            self.wf(),
        ensures
            moves@ == legal_moves(self.board_state@, colour),
    {
        let mut possible_moves: Vec<Coordinate> = Vec::new();
        proof {
            self.board_state.lemma_size_fits();
        }
        let cells: usize = self.size * self.size;
        let mut i: usize = 0;
        while i < cells
            invariant
                i <= cells,
                cells == self.board_state@.owners.len(),
                self.board_state.wf(),
                possible_moves@ == legal_upto(self.board_state@, colour, i as nat),
            decreases cells - i,
        {
            let coordinate = Coordinate::Index(i);
            let new_position = self.board_state.add_stone(coordinate, colour);
            if new_position.is_ok() {
                possible_moves.push(coordinate);
            }
            i += 1;
        }
        possible_moves
    }

    /// All legal moves of `colour` on `board`, the cells tried in parallel.
    pub fn get_all_possible_moves_for_board(board: &BoardState, colour: Colour) -> (moves: Vec<
        Coordinate,
    >)
        requires
            board.wf(),
        ensures
            moves@ == legal_moves(board@, colour),
    {
        proof {
            board.lemma_size_fits();
        }
        par_legal_moves(board, colour, board.size * board.size)
    }

    /// One of `possible_moves`, picked at random; `None` if there is none.
    pub fn play_random_move(&self, possible_moves: &[Coordinate]) -> (picked: Option<Coordinate>)
        ensures
            match picked {
                None => possible_moves@.len() == 0,
                Some(point) => possible_moves@.contains(point),
            },
    {
        if possible_moves.len() == 0 {
            return None;
        }
        let mut rng = rand::thread_rng();
        let index: usize = index_below(&mut rng, possible_moves.len());
        Some(possible_moves[index])
    }

    /// Whether Black or White has a legal move.
    pub fn _moves_to_play(&self) -> (any: bool)
        requires
            self.wf(),
        ensures
            any == (legal_moves(self.board_state@, Colour::Black).len() > 0 || legal_moves(
                self.board_state@,
                Colour::White,
            ).len() > 0),
    {
        let black_moves = self.get_all_possible_moves(Colour::Black).len() > 0;
        let white_moves = self.get_all_possible_moves(Colour::White).len() > 0;

        black_moves || white_moves
    }

    /// Whether `colour` has nothing useful left to play on `board`: each of
    /// its legal moves lies in an empty area that touches no stone of the
    /// other colour.
    pub fn check_useful_points_played(board: &BoardState, colour: Colour) -> (done: bool)
        requires
            board.wf(),
        ensures
            done == no_useful_moves(board@, colour),
    {
        let grid = board.get_grid();
        proof {
            board.lemma_size_fits();
        }
        let all_possible_moves = GameState::get_all_possible_moves_for_board(board, colour);
        let territory = board.get_territory(grid.as_slice(), colour);
        let coords = GroupState::combine_groups(&territory);
        let ghost sets = Seq::new(territory.len() as nat, |i: int| territory[i]@.points);
        let ghost legal = legal_moves(board@, colour);
        proof {
            lemma_legal_upto(board@, colour, board@.owners.len());
            assert forall|cell: usize|
                cell < grid@.len() && grid@[cell as int] == Colour::Empty implies (coords@.contains(
                cell,
            ) <==> !borders(
                region(grid@, board.size, cell),
                grid@,
                board.size,
                colour.opponent(),
            )) by {
                if coords@.contains(cell) {
                    let i = choose|i: int| 0 <= i < sets.len() && #[trigger] sets[i].contains(cell);
                    assert(territory[i]@.points.contains(cell));
                    lemma_empty_region_cell(grid@, board.size, territory[i]@.points, cell);
                }
                if !borders(region(grid@, board.size, cell), grid@, board.size, colour.opponent()) {
                    let i = choose|i: int|
                        0 <= i < territory.len() && #[trigger] territory[i]@.points.contains(cell);
                    assert(sets[i].contains(cell));
                }
            }
        }
        let mut useful_moves: usize = 0;
        let mut k: usize = 0;
        while k < all_possible_moves.len()
            invariant
                k <= all_possible_moves.len(),
                useful_moves <= k,
                all_possible_moves@ == legal,
                board.wf(),
                board@.owners.len() == cell_count(board.size) <= usize::MAX,
                forall|j: int|
                    0 <= j < legal.len() ==> (#[trigger] legal[j]) is Index && legal[j]->Index_0
                        < board@.owners.len(),
                (useful_moves == k) <==> (forall|j: int|
                    0 <= j < k ==> coords@.contains((#[trigger] legal[j])->Index_0)),
            decreases all_possible_moves.len() - k,
        {
            let cell: usize = all_possible_moves[k].cell_on(board.size).unwrap();
            if coords.contains(&cell) {
                useful_moves += 1;
            }
            k += 1;
        }
        proof {
            let done = useful_moves == all_possible_moves.len();
            if done {
                assert forall|cell: usize|
                    cell < board@.owners.len() && #[trigger] is_legal(
                        board@,
                        colour,
                        cell,
                    ) implies !borders(
                    region(board@.grid(), board@.size, cell),
                    board@.grid(),
                    board@.size,
                    colour.opponent(),
                ) by {
                    assert(legal.contains(Coordinate::Index(cell)));
                    let j = choose|j: int| 0 <= j < legal.len() && legal[j] == Coordinate::Index(cell);
                    assert(coords@.contains(legal[j]->Index_0));
                    assert(board@.owners[cell as int] is None);
                }
            } else {
                let j = choose|j: int|
                    0 <= j < legal.len() && !coords@.contains((#[trigger] legal[j])->Index_0);
                let cell = legal[j]->Index_0;
                assert(is_legal(board@, colour, cell));
                assert(board@.owners[cell as int] is None);
            }
        }
        return useful_moves == all_possible_moves.len();
    }

    /// The position with each of row and column cut down to the side length
    /// of the board.
    pub fn clamp_coordinate(&self, x: usize, y: usize) -> (point: Coordinate)
        ensures
            point == Coordinate::Position(
                (
                    if x > self.size {
                        self.size
                    } else {
                        x
                    },
                    if y > self.size {
                        self.size
                    } else {
                        y
                    },
                ),
            ),
    {
        let mut new_x = x;
        let mut new_y = y;
        if new_x > self.size {
            new_x = self.size;
        }
        if new_y > self.size {
            new_y = self.size;
        }
        Coordinate::Position((new_x, new_y))
    }

    /// Whether the game is over by resignation or by two passes.
    pub fn check_end(&self) -> (over: bool)
        requires
            self.wf(),
        ensures
            over == self.game_tree.ended(),
    {
        self.game_tree.check_end()
    }

    /// Moves the history pointer one position forward, if it is not on the
    /// last.
    pub fn jump_forward(&mut self)
        requires
            old(self).wf(),
        ensures
            final(self).wf(),
            final(self).board_state == old(self).board_state,
            final(self).turn == old(self).turn,
            final(self).size == old(self).size,
            final(self).game_tree.board_states == old(self).game_tree.board_states,
            final(self).game_tree.pointer == (if old(self).game_tree.pointer == old(
                self,
            ).game_tree.board_states.len() - 1 {
                old(self).game_tree.pointer as int
            } else {
                old(self).game_tree.pointer + 1
            }),
    {
        if self.game_tree.up_to_date() {
            return ;
        }
        let _ = self.game_tree.move_forward();
    }

    /// Moves the history pointer one position back, if it is not on the
    /// first.
    pub fn jump_back(&mut self)
        requires
            old(self).wf(),
        ensures
            final(self).wf(),
            final(self).board_state == old(self).board_state,
            final(self).turn == old(self).turn,
            final(self).size == old(self).size,
            final(self).game_tree.board_states == old(self).game_tree.board_states,
            final(self).game_tree.pointer == (if old(self).game_tree.pointer == 0 {
                0int
            } else {
                old(self).game_tree.pointer - 1
            }),
    {
        if self.game_tree.get_pointer() == 0 {
            return ;
        }
        let _ = self.game_tree.move_back();
    }

    /// The winner of the current position by area scoring, and the margin in
    /// half points: the difference of the scores, less White's komi if Black
    /// wins, plus it if White does.
    pub fn calculate_total_completed_score(&self) -> (result: (Colour, u128))
        requires
            self.wf(),
        ensures
            ({
                let grid = self.board_state@.grid();
                let black = score_of(grid, self.board_state.size, Colour::Black);
                let white = score_of(grid, self.board_state.size, Colour::White);
                if black > white {
                    result.0 == Colour::Black && result.1 == 2 * (black - white) - 1
                } else {
                    result.0 == Colour::White && result.1 == 2 * (white - black) + 1
                }
            }),
    {
        let grid = self.board_state.get_grid();
        proof {
            self.board_state.lemma_size_fits();
            lemma_count_bound(grid@, Colour::Black);
            lemma_count_bound(grid@, Colour::White);
        }
        let (black_stone_count, white_stone_count) = count_stones(&grid);
        let (black_area, white_area) = self.board_state.get_colour_territory(&grid);

        let black_score: u128 = 2 * (black_area as u128 + black_stone_count as u128);
        let white_score: u128 = 2 * (white_area as u128 + white_stone_count as u128)
            + KOMI_HALF_POINTS;
        if black_score > white_score {
            (Colour::Black, black_score - white_score)
        } else {
            (Colour::White, white_score - black_score)
        }
    }

    /// Whether a playout may stop at `board`: all its important points are
    /// played.
    pub fn is_game_over(board: &BoardState) -> (over: bool)
        requires
            board.shape_wf(),
        ensures
            over == crate::territory::all_important_points_played(board@.grid(), board.size),
    {
        board.check_all_important_points_played()
    }

    /// Who wins `board` by area scoring with White's half point of komi.
    pub fn determine_outcome(board: &BoardState) -> (outcome: Outcome)
        requires
            board.shape_wf(),
        ensures
            outcome == outcome_of(board@.grid(), board.size),
    {
        let grid = board.get_grid();
        proof {
            board.lemma_size_fits();
        }
        let (black_stone_count, white_stone_count) = count_stones(&grid);
        let black_area = board.get_surrounded_area(&grid, Colour::Black);
        let white_area = board.get_surrounded_area(&grid, Colour::White);

        let black_score: u128 = 2 * (black_area as u128 + black_stone_count as u128);
        let white_score: u128 = 2 * (white_area as u128 + white_stone_count as u128)
            + KOMI_HALF_POINTS;
        if black_score > white_score {
            return Outcome::BlackWin;
        } else {
            return Outcome::WhiteWin;
        }
    }
}

} // verus!
