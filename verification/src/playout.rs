//! A playout: a game played on from a position, turn by turn, until it is
//! over. The side to move passes when it has nothing useful left to play
//! and else places a stone; the sides take turns; two passes in a row end
//! the game, and so does a board on which all important points are played.
//!
//! Which stone is placed is for the caller to pick. The rules of a turn are
//! here, stated over plain values and proved of the code.

use vstd::prelude::*;
use std::sync::Arc;
use crate::board_state::BoardState;
use crate::board_view::BoardView;
use crate::colour::{Colour, Outcome};
use crate::coordinate::Coordinate;
use crate::game_state::{no_useful_moves, outcome_of, GameState};
use crate::territory::all_important_points_played;

verus! {

/// A playout at some turn, as a mathematical value.
pub struct PlayoutView {
    pub board: BoardView,
    /// The colour that is to move.
    pub colour: Colour,
    /// How many turns in a row were passes, the last turn among them.
    pub passes: nat,
}

impl PlayoutView {
    /// The playout that begins at `board` with `colour` to move.
    pub open spec fn begin(board: BoardView, colour: Colour) -> PlayoutView {
        PlayoutView { board, colour, passes: 0 }
    }

    /// Whether the playout is over: the last two turns were passes, or all
    /// important points of the board are played.
    pub open spec fn ended(self) -> bool {
        self.passes >= 2 || all_important_points_played(self.board.grid(), self.board.size)
    }

    /// Whether the side to move passes: none of its legal moves is useful.
    pub open spec fn must_pass(self) -> bool {
        no_useful_moves(self.board, self.colour)
    }

    /// The playout after the turn of the side to move, for which the stone
    /// `picked` was picked. A side that must pass passes, whatever was
    /// picked; else it places the stone. Then the other side is to move.
    /// There is no turn once the playout is over, and none if the side must
    /// place a stone and no stone was picked or the stone is illegal.
    pub open spec fn turn(self, picked: Option<Coordinate>) -> Option<PlayoutView> {
        if self.ended() {
            None
        } else if self.must_pass() {
            Some(
                PlayoutView {
                    board: self.board,
                    colour: self.colour.opponent(),
                    passes: self.passes + 1,
                },
            )
        } else {
            match picked {
                Some(point) => match self.board.add_stone(point, self.colour) {
                    Ok(next) => Some(
                        PlayoutView { board: next, colour: self.colour.opponent(), passes: 0 },
                    ),
                    Err(_) => None,
                },
                None => None,
            }
        }
    }

    /// The playout after a series of turns, given by the stones that were
    /// picked for them; `None` if one of them is no turn.
    pub open spec fn turns(self, picks: Seq<Option<Coordinate>>) -> Option<PlayoutView>
        decreases picks.len(),
    {
        if picks.len() == 0 {
            Some(self)
        } else {
            match self.turns(picks.drop_last()) {
                Some(before) => before.turn(picks.last()),
                None => None,
            }
        }
    }

    /// Whether `outcome` is the result of a playout from this one: some
    /// series of turns leads to a playout that is over, and `outcome` is
    /// the winner of its board.
    pub open spec fn results_in(self, outcome: Outcome) -> bool {
        exists|picks: Seq<Option<Coordinate>>|
            #![trigger self.turns(picks)]
            self.turns(picks) matches Some(end) && end.ended() && outcome == outcome_of(
                end.board.grid(),
                end.board.size,
            )
    }
}

/// In a playout the sides take turns: after any series of turns from a
/// black or white side to move, that side is to move again exactly when
/// the number of turns is even.
pub proof fn lemma_sides_take_turns(start: PlayoutView, picks: Seq<Option<Coordinate>>)
    requires
        start.turns(picks) is Some,
        start.colour != Colour::Empty,
    ensures
        start.turns(picks)->Some_0.colour == (if picks.len() % 2 == 0 {
            start.colour
        } else {
            start.colour.opponent()
        }),
    decreases picks.len(),
{
    if picks.len() > 0 {
        lemma_sides_take_turns(start, picks.drop_last());
    }
}

/// A playout at some turn.
pub struct Playout {
    pub state: Arc<BoardState>,
    /// The colour that is to move.
    pub colour: Colour,
    /// How many turns in a row were passes, the last turn among them.
    pub consecutive_passes: usize,
}

impl View for Playout {
    type V = PlayoutView;

    open spec fn view(&self) -> PlayoutView {
        PlayoutView {
            board: self.state@,
            colour: self.colour,
            passes: self.consecutive_passes as nat,
        }
    }
}

impl Playout {
    /// The invariant of a playout: its board is well formed.
    pub open spec fn wf(&self) -> bool {
        self.state.wf()
    }

    /// The playout that begins at `state` with `colour` to move.
    pub fn new(state: Arc<BoardState>, colour: Colour) -> (playout: Self)
        requires
            state.wf(),
        ensures
            playout.wf(),
            playout@ == PlayoutView::begin(state@, colour),
    {
        Playout { state, colour, consecutive_passes: 0 }
    }

    /// Whether the playout is over.
    pub fn is_over(&self) -> (over: bool)
        requires
            self.wf(),
        ensures
            over == self@.ended(),
    {
        self.consecutive_passes >= 2 || GameState::is_game_over(&self.state)
    }

    /// The turn of the side to move, for which the stone `picked` was
    /// picked: the playout after it, or `None` if there is no such turn.
    pub fn take_turn(&self, picked: Option<Coordinate>) -> (next: Option<Playout>)
        requires
            self.wf(),
        ensures
            match next {
                Some(after) => after.wf() && self@.turn(picked) == Some(after@),
                None => self@.turn(picked) is None,
            },
    {
        if self.is_over() {
            return None;
        }
        if GameState::check_useful_points_played(&self.state, self.colour) {
            return Some(
                Playout {
                    state: Arc::clone(&self.state),
                    colour: self.colour.swap_turn(),
                    consecutive_passes: self.consecutive_passes + 1,
                },
            );
        }
        match picked {
            Some(point) => match self.state.add_stone(point, self.colour) {
                Ok(next) => Some(
                    Playout {
                        state: Arc::new(next),
                        colour: self.colour.swap_turn(),
                        consecutive_passes: 0,
                    },
                ),
                Err(_) => None,
            },
            None => None,
        }
    }

    /// Who wins the board of the playout.
    pub fn result(&self) -> (outcome: Outcome)
        requires
            self.wf(),
        ensures
            outcome == outcome_of(self@.board.grid(), self@.board.size),
            outcome != Outcome::_Draw,
    {
        GameState::determine_outcome(&self.state)
    }
}

} // verus!
