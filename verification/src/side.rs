//! The two players.
use vstd::prelude::*;

use crate::error;
use crate::error::{Error, ErrorView};

verus! {

/// The player to move.
#[derive(Clone, Copy, Debug, PartialEq, Eq, Structural)]
pub enum Side {
    Black,
    White,
}

/// The side that a stored side number stands for.
pub open spec fn side_of_value(value: int) -> Result<Side, ErrorView> {
    if value == 0 {
        Ok(Side::Black)
    } else if value == 1 {
        Ok(Side::White)
    } else {
        Err(ErrorView::SideValue(value))
    }
}

/// The side that a side letter stands for.
pub open spec fn side_of_char(value: char) -> Result<Side, ErrorView> {
    if value == 'b' || value == 'B' {
        Ok(Side::Black)
    } else if value == 'w' || value == 'W' {
        Ok(Side::White)
    } else {
        Err(ErrorView::SideChar(value))
    }
}

impl Side {
    /// The other player.
    pub open spec fn other(self) -> Side {
        match self {
            Side::Black => Side::White,
            Side::White => Side::Black,
        }
    }

    /// The number under which the side is stored.
    pub open spec fn value(self) -> int {
        match self {
            Side::Black => 0,
            Side::White => 1,
        }
    }

    /// The letter that ends a position key.
    pub open spec fn letter(self) -> char {
        match self {
            Side::Black => 'b',
            Side::White => 'w',
        }
    }

    /// The other player.
    pub fn opposite(self) -> (side: Side)
        ensures
            side == self.other(),
    {
        match self {
            Side::Black => Side::White,
            Side::White => Side::Black,
        }
    }

    /// The number under which the side is stored: 0 for Black, 1 for White.
    pub fn to_i64(self) -> (value: i64)
        ensures
            value == self.value(),
    {
        match self {
            Side::Black => 0,
            Side::White => 1,
        }
    }

    /// The side stored as `value`.
    pub fn from_i64(value: i64) -> (side: Result<Side, Error>)
        ensures
            error::outcome(side) == side_of_value(value as int),
    {
        if value == 0 {
            Ok(Side::Black)
        } else if value == 1 {
            Ok(Side::White)
        } else {
            Err(Error::SideValue(value))
        }
    }

    /// The letter of the side in a position key.
    pub fn to_char(self) -> (letter: char)
        ensures
            letter == self.letter(),
    {
        match self {
            Side::Black => 'b',
            Side::White => 'w',
        }
    }

    /// The side that `value` names, in either case of the letter.
    pub fn from_char(value: char) -> (side: Result<Side, Error>)
        ensures
            error::outcome(side) == side_of_char(value),
    {
        if value == 'b' || value == 'B' {
            Ok(Side::Black)
        } else if value == 'w' || value == 'W' {
            Ok(Side::White)
        } else {
            Err(Error::SideChar(value))
        }
    }
}

/// Taking the other player twice gives the first one back.
pub proof fn law_opposite_is_an_involution(side: Side)
    ensures
        side.other().other() == side,
        side.other() != side,
{
}

/// A side reads back from its stored number and from its letter.
pub proof fn law_side_round_trip(side: Side)
    ensures
        side_of_value(side.value()) == Ok::<Side, ErrorView>(side),
        side_of_char(side.letter()) == Ok::<Side, ErrorView>(side),
{
}

/// Only 0 and 1 are side numbers and only the letters b and w, in either case, are side
/// letters; anything else is refused and named.
pub proof fn law_nothing_else_names_a_side(value: int, letter: char)
    ensures
        match side_of_value(value) {
            Ok(side) => (side == Side::Black && value == 0) || (side == Side::White && value == 1),
            Err(error) => value != 0 && value != 1 && error == ErrorView::SideValue(value),
        },
        match side_of_char(letter) {
            Ok(side) => (side == Side::Black && (letter == 'b' || letter == 'B')) || (side
                == Side::White && (letter == 'w' || letter == 'W')),
            Err(error) => letter != 'b' && letter != 'B' && letter != 'w' && letter != 'W' && error
                == ErrorView::SideChar(letter),
        },
{
}

} // verus!
