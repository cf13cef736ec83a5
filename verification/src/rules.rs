//! What a placement does, as a statement about the board: which of the
//! outcomes it has and which stones stand afterwards.

use vstd::prelude::*;
use crate::board::BoardView;
use crate::geometry::Spinor;
use crate::groups::{after_capture, captures_any, has_liberty};
use crate::stone::{MoveOutcome, StoneType, Turn};

verus! {

/// The stones with the stone of `turn` put on `idx`.
pub open spec fn placed(stones: Seq<StoneType>, turn: Turn, idx: int) -> Seq<StoneType> {
    stones.update(idx, turn.spec_stone())
}

/// How the attempt of `turn` to place a stone on `idx` ends. Capture is
/// looked at before self-capture: a stone that takes its last liberty from
/// an opposing group stands.
pub open spec fn move_outcome(adjacency: Seq<Seq<i32>>, stones: Seq<StoneType>, turn: Turn, idx: int) -> MoveOutcome {
    if !(0 <= idx < stones.len()) {
        MoveOutcome::RejectedOffBoard
    } else if stones[idx] != StoneType::Empty {
        MoveOutcome::RejectedOccupied
    } else if captures_any(adjacency, placed(stones, turn, idx), idx, turn.spec_captures()) {
        MoveOutcome::CapturedAndAccepted
    } else if !has_liberty(adjacency, placed(stones, turn, idx), idx) {
        MoveOutcome::RejectedSelfCapture
    } else {
        MoveOutcome::AcceptedNoCapture
    }
}

/// The stones after the attempt: the new stone stands and what it captured
/// is gone, or, where the attempt is rejected, nothing has changed.
pub open spec fn stones_after_move(adjacency: Seq<Seq<i32>>, stones: Seq<StoneType>, turn: Turn, idx: int) -> Seq<StoneType> {
    if move_outcome(adjacency, stones, turn, idx).spec_accepted() {
        after_capture(adjacency, placed(stones, turn, idx), idx, turn.spec_captures())
    } else {
        stones
    }
}

impl<S: Spinor> BoardView<S> {
    /// How the attempt of `turn` to place a stone on `idx` ends on this board.
    pub open spec fn outcome_of(self, turn: Turn, idx: int) -> MoveOutcome {
        move_outcome(self.adjacency(), self.stones(), turn, idx)
    }

    /// The board after the attempt: an accepted move changes the stones and
    /// is saved to the history, a rejected one leaves the board as it was.
    pub open spec fn after_attempt(self, turn: Turn, idx: int) -> BoardView<S> {
        if self.outcome_of(turn, idx).spec_accepted() {
            self.with_stones(stones_after_move(self.adjacency(), self.stones(), turn, idx)).move_saved()
        } else {
            self
        }
    }
}

/// A stone that captures nothing leaves every other stone in place.
pub proof fn lemma_no_capture_leaves_stones(adjacency: Seq<Seq<i32>>, stones: Seq<StoneType>, p: int, color: StoneType)
    requires
        !captures_any(adjacency, stones, p, color),
    ensures
        after_capture(adjacency, stones, p, color) == stones,
{
}

/// A rejected attempt changes nothing on the board, and an accepted one
/// moves the cursor on by one snapshot.
pub proof fn lemma_attempt_outcomes<S: Spinor>(board: BoardView<S>, turn: Turn, idx: int)
    requires
        board.wf(),
    ensures
        !board.outcome_of(turn, idx).spec_accepted() ==> board.after_attempt(turn, idx) == board,
        board.outcome_of(turn, idx).spec_accepted() ==> board.after_attempt(turn, idx).cursor == board.cursor + 1
            && board.after_attempt(turn, idx).history.len() == board.cursor + 2,
{
}

} // verus!
