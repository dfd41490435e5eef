//! The line of play so far, with a pointer for looking back at earlier
//! positions.

use vstd::prelude::*;
use crate::board_state::BoardState;
use crate::colour::Colour;
use crate::coordinate::Coordinate;
use crate::fails::TreeErrors;
use crate::geometry::cell_count;
use crate::turn::Turn;

verus! {

/// The positions of a game in the order in which they arose, each with the
/// turn that led to it. The first entry is the empty board.
pub struct GameTree {
    pub board_states: Vec<(Turn, BoardState)>,
    /// The entry that is being looked at.
    pub pointer: usize,
}

impl GameTree {
    /// The invariant: there is a first position, the pointer names an entry,
    /// and every board is well formed.
    pub open spec fn wf(&self) -> bool {
        &&& self.board_states.len() > 0
        &&& self.pointer < self.board_states.len()
        &&& forall|i: int| 0 <= i < self.board_states.len() ==> (#[trigger] self.board_states[i]).1.wf()
    }

    /// The turns of the game, the opening placeholder first.
    pub open spec fn turns(&self) -> Seq<Turn> {
        Seq::new(self.board_states.len() as nat, |i: int| self.board_states[i].0)
    }

    /// Whether the game is over: it has at least two turns, and either the
    /// last is a resignation or the last two are passes.
    pub open spec fn ended(&self) -> bool {
        let n = self.board_states.len() as int;
        &&& n >= 3
        &&& (self.board_states[n - 1].0 is Resign || (self.board_states[n - 1].0 is Pass
            && self.board_states[n - 2].0 is Pass))
    }

    /// A history that holds only the empty board of side `size`.
    pub fn new(size: usize) -> (tree: Self)
        requires
            cell_count(size) <= usize::MAX,
        ensures
            tree.wf(),
            tree.board_states.len() == 1,
            tree.pointer == 0,
            tree.board_states[0].0 is Pass,
            tree.board_states[0].1@.is_fresh(size),
    {
        let mut board_states: Vec<(Turn, BoardState)> = Vec::new();
        board_states.push((Turn::Pass, BoardState::new(size)));

        GameTree { board_states, pointer: 0 }
    }

    /// Moves the pointer one entry back and hands out that entry.
    pub fn move_back(&mut self) -> (result: Result<&(Turn, BoardState), TreeErrors>)
        requires
            old(self).wf(),
        ensures
            final(self).wf(),
            final(self).board_states == old(self).board_states,
            old(self).pointer == 0 ==> result == Err::<&(Turn, BoardState), TreeErrors>(
                TreeErrors::BelowZero,
            ) && final(self).pointer == 0,
            old(self).pointer > 0 ==> final(self).pointer == old(self).pointer - 1 && result == Ok::<
                &(Turn, BoardState),
                TreeErrors,
            >(&old(self).board_states[old(self).pointer - 1]),
    {
        if self.pointer == 0 {
            return Err(TreeErrors::BelowZero);
        }
        self.pointer -= 1;

        Ok(&self.board_states[self.pointer])
    }

    /// Moves the pointer one entry forward and hands out that entry.
    pub fn move_forward(&mut self) -> (result: Result<&(Turn, BoardState), TreeErrors>)
        requires
            old(self).wf(),
        ensures
            final(self).wf(),
            final(self).board_states == old(self).board_states,
            old(self).pointer == old(self).board_states.len() - 1 ==> result == Err::<
                &(Turn, BoardState),
                TreeErrors,
            >(TreeErrors::AboveMax) && final(self).pointer == old(self).pointer,
            old(self).pointer < old(self).board_states.len() - 1 ==> final(self).pointer == old(
                self,
            ).pointer + 1 && result == Ok::<&(Turn, BoardState), TreeErrors>(
                &old(self).board_states[old(self).pointer + 1],
            ),
    {
        if self.pointer == self.board_states.len() - 1 {
            return Err(TreeErrors::AboveMax);
        }
        self.pointer += 1;

        Ok(&self.board_states[self.pointer])
    }

    /// Sets the pointer to entry `index` and hands out that entry.
    pub fn _jump(&mut self, index: usize) -> (result: Result<&(Turn, BoardState), TreeErrors>)
        requires
            old(self).wf(),
        ensures
            final(self).wf(),
            final(self).board_states == old(self).board_states,
            index >= old(self).board_states.len() ==> result == Err::<
                &(Turn, BoardState),
                TreeErrors,
            >(TreeErrors::AboveMax) && final(self).pointer == old(self).pointer,
            index < old(self).board_states.len() ==> final(self).pointer == index && result == Ok::<
                &(Turn, BoardState),
                TreeErrors,
            >(&old(self).board_states[index as int]),
    {
        if index >= self.board_states.len() {
            return Err(TreeErrors::AboveMax);
        }
        self.pointer = index;
        return Ok(&self.board_states[self.pointer]);
    }

    /// Sets the pointer to the last entry and hands out that entry.
    pub fn _latest(&mut self) -> (entry: &(Turn, BoardState))
        requires
            old(self).wf(),
        ensures
            final(self).wf(),
            final(self).board_states == old(self).board_states,
            final(self).pointer == old(self).board_states.len() - 1,
            *entry == old(self).board_states[old(self).board_states.len() - 1],
    {
        self.pointer = self.board_states.len() - 1;

        return &self.board_states[self.pointer];
    }

    /// Sets the pointer to the last entry.
    pub fn reset(&mut self)
        requires
            old(self).wf(),
        ensures
            final(self).wf(),
            final(self).board_states == old(self).board_states,
            final(self).pointer == old(self).board_states.len() - 1,
    {
        self.pointer = self.board_states.len() - 1;
    }

    /// Appends a turn with the board it led to, and points at it.
    pub fn add_move(&mut self, turn: Turn, board: BoardState)
        requires
            old(self).wf(),
            board.wf(),
        ensures
            final(self).wf(),
            final(self).board_states@ == old(self).board_states@.push((turn, board)),
            final(self).pointer == old(self).board_states.len(),
    {
        self.reset();
        self.board_states.push((turn, board));
        self.pointer += 1;
    }

    pub fn get_pointer(&self) -> (pointer: usize)
        ensures
            pointer == self.pointer,
    {
        self.pointer
    }

    /// The number of turns played.
    pub fn get_length(&self) -> (length: usize)
        requires
            self.wf(),
        ensures
            length == self.board_states.len() - 1,
    {
        self.board_states.len() - 1
    }

    /// Whether the game is over by resignation or by two passes.
    pub fn check_end(&self) -> (over: bool)
        requires
            self.wf(),
        ensures
            over == self.ended(),
    {
        if self.board_states.len() < 3 {
            return false;
        }
        let n: usize = self.board_states.len();
        match self.board_states[n - 1].0 {
            Turn::Resign => true,
            Turn::Pass => {
                match self.board_states[n - 2].0 {
                    Turn::Pass => true,
                    _ => false,
                }
            },
            _ => false,
        }
    }

    /// Whether the pointer is on the last entry.
    pub fn up_to_date(&self) -> (current: bool)
        requires
            self.wf(),
        ensures
            current == (self.pointer == self.board_states.len() - 1),
    {
        self.pointer == self.board_states.len() - 1
    }

    /// The board under the pointer, with the colour that is to move there:
    /// Black at even entries, White at odd ones.
    pub fn get_board(&self) -> (entry: (Colour, BoardState))
        requires
            self.wf(),
        ensures
            entry.0 == (if self.pointer % 2 == 0 {
                Colour::Black
            } else {
                Colour::White
            }),
            entry.1@ == self.board_states[self.pointer as int].1@,
            entry.1.wf(),
    {
        let board = &self.board_states[self.pointer].1;
        let colour;
        if self.pointer % 2 == 0 {
            colour = Colour::Black;
        } else {
            colour = Colour::White;
        }
        (colour, board.clone())
    }

    /// The point of the turn under the pointer, if that turn placed a stone.
    pub fn get_last_move(&self) -> (point: Option<Coordinate>)
        requires
            self.wf(),
        ensures
            point == (match self.board_states[self.pointer as int].0 {
                Turn::Move(coordinate) => Some(coordinate),
                _ => None,
            }),
    {
        let data = self.board_states[self.pointer].0;
        match data {
            Turn::Move(coordinate) => Some(coordinate),
            _ => None,
        }
    }
}

} // verus!
