//! A game on the board that is changed in place: who is to move, and the
//! positions that the game has gone through. A move is refused when its
//! point is off the board or taken, and when it would bring back a position
//! that the game remembers; suicide is not looked for. After each move of
//! the player the other side answers with a stone on a point picked at
//! random.

use vstd::prelude::*;
use crate::colour::Colour;
use crate::coordinate::Coordinate;
use crate::fails::TurnErrors;
use crate::geometry::cell_count;
use crate::new_board::{with_stone, CountedView, NewBoard, BOARD_SIZE};
use crate::random::index_below;
use crate::turn::Turn;
use crate::zobrist::{hash_of, ZobristTable};

verus! {

broadcast use vstd::std_specs::hash::group_hash_axioms;

/// Whether every move of the player is answered by a random stone of the
/// other side.
pub const AUTO_PLAY: bool = true;

/// The stones after a stone of `colour` is placed on `coordinate`, or why
/// it cannot be placed: the point is off the board, or it is taken.
pub open spec fn stone_on(board: CountedView, coordinate: Coordinate, colour: Colour) -> Result<
    CountedView,
    TurnErrors,
> {
    if !coordinate.on_board(BOARD_SIZE as int) {
        Err(TurnErrors::OutofBounds)
    } else {
        let cell = coordinate.index_on(BOARD_SIZE as int) as usize;
        if board.stones.owners[cell as int] is Some {
            Err(TurnErrors::AlreadyPlaced)
        } else {
            Ok(with_stone(board, cell, colour))
        }
    }
}

/// The points among the first `upto` cells on which a stone of `colour`
/// can be placed, in the order of the cells.
pub open spec fn open_upto(board: CountedView, colour: Colour, upto: nat) -> Seq<Coordinate>
    decreases upto,
{
    if upto == 0 {
        Seq::empty()
    } else {
        let rest = open_upto(board, colour, (upto - 1) as nat);
        if stone_on(board, Coordinate::Index((upto - 1) as usize), colour) is Ok {
            rest.push(Coordinate::Index((upto - 1) as usize))
        } else {
            rest
        }
    }
}

/// All points on which a stone of `colour` can be placed, in the order of
/// the cells.
pub open spec fn open_points(board: CountedView, colour: Colour) -> Seq<Coordinate> {
    open_upto(board, colour, cell_count(BOARD_SIZE) as nat)
}

/// The open points are points in index form on which a stone can be
/// placed.
pub proof fn lemma_open_upto(board: CountedView, colour: Colour, upto: nat)
    requires
        upto <= usize::MAX,
    ensures
        forall|k: int|
            0 <= k < open_upto(board, colour, upto).len() ==> stone_on(
                board,
                #[trigger] open_upto(board, colour, upto)[k],
                colour,
            ) is Ok,
    decreases upto,
{
    if upto > 0 {
        lemma_open_upto(board, colour, (upto - 1) as nat);
    }
}

/// A game, as a mathematical value.
pub struct GameView {
    /// The stones on the board, with the liberties that the groups are
    /// counted to have.
    pub board: CountedView,
    /// The colour that is to move.
    pub turn: Colour,
    /// The Zobrist keys of the cells.
    pub keys: Seq<(u64, u64)>,
    /// The hashes of the positions that the game has gone through.
    pub visited: Set<u64>,
}

impl GameView {
    /// The game after the side to move has placed a stone on `coordinate`;
    /// `None` if the stone cannot be placed or would bring back a position
    /// that the game remembers. The new position is remembered, and the
    /// other side is to move.
    pub open spec fn own_move(self, coordinate: Coordinate) -> Option<GameView> {
        match stone_on(self.board, coordinate, self.turn) {
            Ok(next) => if self.visited.contains(hash_of(self.keys, next.stones.grid())) {
                None
            } else {
                Some(
                    GameView {
                        board: next,
                        turn: self.turn.opponent(),
                        keys: self.keys,
                        visited: self.visited.insert(hash_of(self.keys, next.stones.grid())),
                    },
                )
            },
            Err(_) => None,
        }
    }

    /// The game after the side to move has answered with a stone on the
    /// open point `coordinate`. An answer is not held against the positions
    /// that the game remembers; its position is remembered, and the other
    /// side is to move.
    pub open spec fn answer_on(self, coordinate: Coordinate) -> GameView {
        let next = stone_on(self.board, coordinate, self.turn)->Ok_0;
        GameView {
            board: next,
            turn: self.turn.opponent(),
            keys: self.keys,
            visited: self.visited.insert(hash_of(self.keys, next.stones.grid())),
        }
    }

    /// Whether `after` is this game after the answer of the side to move:
    /// the game as it is if no point is open, else the game after a stone
    /// on one of the open points.
    pub open spec fn answered_by(self, after: GameView) -> bool {
        let open = open_points(self.board, self.turn);
        if open.len() == 0 {
            after == self
        } else {
            exists|k: int| 0 <= k < open.len() && after == self.answer_on(#[trigger] open[k])
        }
    }
}

/// The board after a stone of `colour` is placed on `coordinate`, or why it
/// cannot be placed. The board itself is left as it is.
pub fn try_stone(board: &NewBoard, coordinate: Coordinate, colour: Colour) -> (result: Result<
    NewBoard,
    TurnErrors,
>)
    requires
        board.wf(),
        colour != Colour::Empty,
        board.group_counter < usize::MAX,
    ensures
        match result {
            Ok(next) => next.wf() && stone_on(board.counted(), coordinate, colour) == Ok::<
                CountedView,
                TurnErrors,
            >(next.counted()),
            Err(error) => stone_on(board.counted(), coordinate, colour) == Err::<
                CountedView,
                TurnErrors,
            >(error),
        },
{
    assert(cell_count(BOARD_SIZE) == 361) by (nonlinear_arith)
        requires
            BOARD_SIZE == 19,
    ;
    match coordinate.cell_on(BOARD_SIZE) {
        None => Err(TurnErrors::OutofBounds),
        Some(cell) => {
            let place = Coordinate::Index(cell);
            if !board.check_empty(place) {
                Err(TurnErrors::AlreadyPlaced)
            } else {
                let mut next = board.clone();
                assert(next.counted() == board.counted());
                next.add_stone(place, colour);
                Ok(next)
            }
        },
    }
}

pub struct Game {
    pub board: NewBoard,
    /// The colour that is to move.
    pub turn: Colour,
    pub zobrist: ZobristTable,
}

impl View for Game {
    type V = GameView;

    open spec fn view(&self) -> GameView {
        GameView {
            board: self.board.counted(),
            turn: self.turn,
            keys: self.zobrist@.keys,
            visited: self.zobrist@.visited,
        }
    }
}

impl Game {
    /// The invariant of a game: the board is well formed, Black or White is
    /// to move, and every cell has its keys.
    pub open spec fn wf(&self) -> bool {
        &&& self.board.wf()
        &&& self.turn != Colour::Empty
        &&& self.zobrist@.keys.len() == cell_count(BOARD_SIZE)
    }

    /// A new game on an empty board; Black moves first.
    pub fn new() -> (game: Self)
        ensures
            game.wf(),
            game.turn == Colour::Black,
            game.board.group_counter == 0,
            game.board.groups@ == Seq::new(cell_count(BOARD_SIZE) as nat, |cell: int| None::<usize>),
            game@.visited == Set::<u64>::empty(),
    {
        assert(cell_count(BOARD_SIZE) == 361) by (nonlinear_arith)
            requires
                BOARD_SIZE == 19,
        ;
        Game { board: NewBoard::new(), turn: Colour::Black, zobrist: ZobristTable::new(BOARD_SIZE) }
    }

    /// Hands the move to the other colour.
    pub fn swap_turn(&mut self)
        ensures
            final(self).turn == old(self).turn.opponent(),
            final(self).board == old(self).board,
            final(self).zobrist == old(self).zobrist,
    {
        self.turn = self.turn.swap_turn();
    }

    /// Tries to place a stone of the side to move on `coordinate` and
    /// returns whether it was placed. A stone that cannot be placed, or
    /// that would bring back a position that the game remembers, leaves the
    /// game as it is. After a stone that was placed the other side answers.
    pub fn play_move(&mut self, coordinate: Coordinate) -> (played: bool)
        requires
            old(self).wf(),
            old(self).board.group_counter + 2 <= usize::MAX,
        ensures
            final(self).wf(),
            played == (old(self)@.own_move(coordinate) is Some),
            !played ==> final(self)@ == old(self)@,
            played ==> old(self)@.own_move(coordinate)->Some_0.answered_by(final(self)@),
    {
        let state = try_stone(&self.board, coordinate, self.turn);
        match state {
            Err(_error) => {
                return false;
            },
            Ok(next) => {
                proof {
                    assert(next.grid@ == next.counted().stones.grid());
                }
                if self.zobrist.contains_position(next.get_grid().as_slice()) {
                    return false;
                }
                self.board = next;
                self.swap_turn();
                self.zobrist.insert_position(self.board.get_grid().as_slice());
                assert(Some(self@) == old(self)@.own_move(coordinate));
                if AUTO_PLAY {
                    self.auto_move();
                }
                true
            },
        }
    }

    /// Plays a turn: a move is tried; a pass and a resignation hand the
    /// move to the other side.
    pub fn play_turn(&mut self, turn: Turn)
        requires
            old(self).wf(),
            old(self).board.group_counter + 2 <= usize::MAX,
        ensures
            final(self).wf(),
            match turn {
                Turn::Move(coordinate) => match old(self)@.own_move(coordinate) {
                    Some(moved) => moved.answered_by(final(self)@),
                    None => final(self)@ == old(self)@,
                },
                _ => final(self)@ == (GameView { turn: old(self).turn.opponent(), ..old(self)@ }),
            },
    {
        match turn {
            Turn::Move(coordinate) => {
                self.play_move(coordinate);
            },
            Turn::Pass => {
                self.swap_turn();
            },
            Turn::Resign => {
                self.swap_turn();
            },
        }
    }

    /// All points on which a stone of `colour` can be placed on
    /// `current_position`, found by trying every cell in turn on a copy of
    /// the board.
    pub fn get_all_possible_moves(current_position: &NewBoard, colour: Colour) -> (moves: Vec<
        Coordinate,
    >)
        requires
            current_position.wf(),
            colour != Colour::Empty,
            current_position.group_counter < usize::MAX,
        ensures
            moves@ == open_points(current_position.counted(), colour),
    {
        let cells: usize = BOARD_SIZE * BOARD_SIZE;
        let mut possible_moves: Vec<Coordinate> = Vec::new();
        let mut i: usize = 0;
        while i < cells
            invariant
                i <= cells == cell_count(BOARD_SIZE),
                current_position.wf(),
                colour != Colour::Empty,
                current_position.group_counter < usize::MAX,
                possible_moves@ == open_upto(current_position.counted(), colour, i as nat),
            decreases cells - i,
        {
            let coordinate = Coordinate::Index(i);
            let state = try_stone(current_position, coordinate, colour);
            match state {
                Ok(_state) => {
                    possible_moves.push(coordinate);
                },
                Err(_error) => {},
            }
            i += 1;
        }
        possible_moves
    }

    /// One of `possible_moves`, picked at random. If there is none, the
    /// point just off the end of the board, on which no stone can be
    /// placed.
    pub fn play_random_move(&self, possible_moves: &Vec<Coordinate>) -> (picked: Coordinate)
        ensures
            possible_moves.len() == 0 ==> picked == Coordinate::Index(
                (cell_count(BOARD_SIZE) + 1) as usize,
            ),
            possible_moves.len() > 0 ==> exists|k: int|
                0 <= k < possible_moves.len() && picked == #[trigger] possible_moves[k],
    {
        if possible_moves.len() == 0 {
            return Coordinate::Index(BOARD_SIZE * BOARD_SIZE + 1);
        }
        let mut rng = rand::thread_rng();
        let index: usize = index_below(&mut rng, possible_moves.len());
        possible_moves[index]
    }

    /// Whether Black or White can place a stone on `board_state`.
    pub fn moves_to_play(board_state: &NewBoard) -> (any: bool)
        requires
            board_state.wf(),
            board_state.group_counter < usize::MAX,
        ensures
            any == (open_points(board_state.counted(), Colour::Black).len() > 0 || open_points(
                board_state.counted(),
                Colour::White,
            ).len() > 0),
    {
        let black_moves = Game::get_all_possible_moves(board_state, Colour::Black).len() > 0;
        let white_moves = Game::get_all_possible_moves(board_state, Colour::White).len() > 0;

        black_moves || white_moves
    }

    /// The answer of the side to move: a stone on an open point picked at
    /// random, if there is one. The position is remembered and the move
    /// goes to the other side.
    pub fn auto_move(&mut self)
        requires
            old(self).wf(),
            old(self).board.group_counter < usize::MAX,
        ensures
            final(self).wf(),
            old(self)@.answered_by(final(self)@),
    {
        let possible_moves = Game::get_all_possible_moves(&self.board, self.turn);
        if possible_moves.len() == 0 {
            return ;
        }
        let random_move = self.play_random_move(&possible_moves);
        proof {
            lemma_open_upto(self.board.counted(), self.turn, cell_count(BOARD_SIZE) as nat);
        }
        let ghost k = choose|k: int|
            0 <= k < possible_moves.len() && random_move == #[trigger] possible_moves[k];
        match try_stone(&self.board, random_move, self.turn) {
            Ok(next) => {
                self.board = next;
            },
            Err(_error) => {
                assert(false);
            },
        }
        proof {
            assert(self.board.grid@ == self.board.counted().stones.grid());
        }
        self.zobrist.insert_position(self.board.get_grid().as_slice());
        self.swap_turn();
        assert(self@ == old(self)@.answer_on(possible_moves@[k]));
    }
}

} // verus!
