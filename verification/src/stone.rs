//! Stones, turns and the outcome of a placement.

use vstd::prelude::*;

verus! {

/// What a board point holds.
#[derive(Clone, Copy, Debug, PartialEq, Eq, Structural)]
pub enum StoneType {
    Empty,
    Black,
    White,
}

/// The player to move.
#[derive(Clone, Copy, Debug, PartialEq, Eq, Structural)]
pub enum Turn {
    Black,
    White,
}

impl Turn {
    /// The stone that the player to move places.
    pub open spec fn spec_stone(self) -> StoneType {
        match self {
            Turn::Black => StoneType::Black,
            Turn::White => StoneType::White,
        }
    }

    /// The stone that the player to move captures.
    pub open spec fn spec_captures(self) -> StoneType {
        match self {
            Turn::Black => StoneType::White,
            Turn::White => StoneType::Black,
        }
    }

    /// The player who moves next.
    pub open spec fn spec_next(self) -> Turn {
        match self {
            Turn::Black => Turn::White,
            Turn::White => Turn::Black,
        }
    }

    pub fn stone(self) -> (s: StoneType)
        ensures
            s == self.spec_stone(),
    {
        match self {
            Turn::Black => StoneType::Black,
            Turn::White => StoneType::White,
        }
    }

    pub fn captures(self) -> (s: StoneType)
        ensures
            s == self.spec_captures(),
    {
        match self {
            Turn::Black => StoneType::White,
            Turn::White => StoneType::Black,
        }
    }

    pub fn next(self) -> (t: Turn)
        ensures
            t == self.spec_next(),
    {
        match self {
            Turn::Black => Turn::White,
            Turn::White => Turn::Black,
        }
    }
}

/// How an attempt to place a stone ended.
#[derive(Clone, Copy, Debug, PartialEq, Eq, Structural)]
pub enum MoveOutcome {
    /// The stone stands and took at least one opposing stone off the board.
    CapturedAndAccepted,
    /// The stone stands and nothing was captured.
    AcceptedNoCapture,
    /// The stone would have had no liberty and captured nothing.
    RejectedSelfCapture,
    /// The point already holds a stone.
    RejectedOccupied,
    /// No board point is there.
    RejectedOffBoard,
}

impl MoveOutcome {
    /// Whether the stone stands, so that the turn passes on.
    pub open spec fn spec_accepted(self) -> bool {
        self == MoveOutcome::CapturedAndAccepted || self == MoveOutcome::AcceptedNoCapture
    }

    pub fn accepted(self) -> (a: bool)
        ensures
            a == self.spec_accepted(),
    {
        match self {
            MoveOutcome::CapturedAndAccepted => true,
            MoveOutcome::AcceptedNoCapture => true,
            _ => false,
        }
    }
}

} // verus!
