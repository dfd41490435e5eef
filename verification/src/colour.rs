//! Stone colours and game outcomes.

use vstd::prelude::*;

verus! {

/// What a point of the board holds.
#[derive(Clone, Copy, Debug, PartialEq, Eq, Hash, Structural)]
pub enum Colour {
    /// No stone.
    Empty,
    Black,
    White,
}

impl Colour {
    /// The other player; `Empty` has no opponent and stays `Empty`.
    pub open spec fn opponent(self) -> Colour {
        match self {
            Colour::Black => Colour::White,
            Colour::White => Colour::Black,
            Colour::Empty => Colour::Empty,
        }
    }

    /// The number that stands for this colour: 0 for `Empty`, 1 for `Black`,
    /// 2 for `White`.
    pub open spec fn ordinal(self) -> nat {
        match self {
            Colour::Empty => 0,
            Colour::Black => 1,
            Colour::White => 2,
        }
    }

    /// The colour of the player who moves after this one.
    pub fn swap_turn(&self) -> (next: Colour)
        ensures
            next == self.opponent(),
    {
        match self {
            Colour::Black => Colour::White,
            Colour::White => Colour::Black,
            Colour::Empty => Colour::Empty,
        }
    }

    /// The colour's English name.
    pub fn get_string(&self) -> (name: String)
        ensures
            *self == Colour::Black ==> name@ == "Black"@,
            *self == Colour::White ==> name@ == "White"@,
            *self == Colour::Empty ==> name@ == "Empty"@,
    {
        match self {
            Colour::Black => "Black".to_owned(),
            Colour::White => "White".to_owned(),
            Colour::Empty => "Empty".to_owned(),
        }
    }

    pub fn into_usize(&self) -> (n: usize)
        ensures
            n == self.ordinal(),
    {
        match self {
            Colour::Black => 1,
            Colour::White => 2,
            Colour::Empty => 0,
        }
    }
}

/// How a finished game ended.
#[derive(Clone, Copy, Debug, PartialEq, Eq, Structural)]
pub enum Outcome {
    BlackWin,
    WhiteWin,
    /// Equal scores; cannot happen once White is given a half-point komi.
    _Draw,
}

impl Outcome {
    /// The outcome that two whole-number scores give: the strictly higher
    /// score wins, equal scores draw.
    pub open spec fn of_scores(black_score: nat, white_score: nat) -> Outcome {
        if black_score > white_score {
            Outcome::BlackWin
        } else if white_score > black_score {
            Outcome::WhiteWin
        } else {
            Outcome::_Draw
        }
    }

    /// The colour that won, `Empty` for a draw.
    pub open spec fn winner(self) -> Colour {
        match self {
            Outcome::BlackWin => Colour::Black,
            Outcome::WhiteWin => Colour::White,
            Outcome::_Draw => Colour::Empty,
        }
    }

    pub fn _get_string(&self) -> (name: String)
        ensures
            *self == Outcome::BlackWin ==> name@ == "Black Wins"@,
            *self == Outcome::WhiteWin ==> name@ == "White Wins"@,
            *self == Outcome::_Draw ==> name@ == "Draw"@,
    {
        match self {
            Outcome::BlackWin => "Black Wins".to_owned(),
            Outcome::WhiteWin => "White Wins".to_owned(),
            Outcome::_Draw => "Draw".to_owned(),
        }
    }

    pub fn _determine(black_score: usize, white_score: usize) -> (outcome: Outcome)
        ensures
            outcome == Outcome::of_scores(black_score as nat, white_score as nat),
    {
        if black_score > white_score {
            Outcome::BlackWin
        } else if white_score > black_score {
            Outcome::WhiteWin
        } else {
            Outcome::_Draw
        }
    }

    pub fn into_colour(&self) -> (colour: Colour)
        ensures
            colour == self.winner(),
    {
        match self {
            Outcome::BlackWin => Colour::Black,
            Outcome::WhiteWin => Colour::White,
            Outcome::_Draw => Colour::Empty,
        }
    }
}

} // verus!
