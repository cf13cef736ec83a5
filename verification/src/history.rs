//! The move history: one snapshot of the stones per accepted move, and a
//! cursor that undo and redo shift along them.

use vstd::prelude::*;
use crate::board::{lemma_same_graph, lemma_with_stones_keeps_topology, Board, BoardView, PointView};
use crate::geometry::Spinor;
use crate::stone::StoneType;

verus! {

impl<S: Spinor> BoardView<S> {
    /// The history holds whole snapshots and the cursor lies inside it.
    pub open spec fn history_in_shape(self) -> bool {
        &&& 0 <= self.cursor < self.history.len() <= i32::MAX
        &&& forall|k: int| 0 <= k < self.history.len() ==> (#[trigger] self.history[k]).len() == self.points.len()
    }

    /// The board once the stones on it are recorded as the move after the
    /// cursor: the snapshots behind the cursor are dropped, the new one is
    /// the last, and the cursor stands on it.
    pub open spec fn move_saved(self) -> BoardView<S> {
        BoardView {
            history: self.history.take(self.cursor + 1).push(self.stones()),
            cursor: self.cursor + 1,
            ..self
        }
    }

    /// The board once the cursor has been shifted by `offset`: the stones
    /// are those of the snapshot it reaches, and where it would leave the
    /// history nothing changes.
    pub open spec fn history_moved(self, offset: int) -> BoardView<S> {
        let target = self.cursor + offset;
        if 0 <= target < self.history.len() {
            (BoardView { cursor: target, ..self }).with_stones(self.history[target])
        } else {
            self
        }
    }
}

/// Saving a move keeps the board sound and leaves the stones in place.
pub proof fn lemma_move_saved_wf<S: Spinor>(board: BoardView<S>)
    requires
        board.topology_wf(),
        board.history_in_shape(),
        board.cursor + 1 < i32::MAX,
    ensures
        board.move_saved().wf(),
        board.move_saved().stones() == board.stones(),
        board.move_saved().points == board.points,
{
    let saved = board.move_saved();
    lemma_same_graph(board, saved);
}

/// Moving through the history keeps a sound board sound.
pub proof fn lemma_history_moved_wf<S: Spinor>(board: BoardView<S>, offset: int)
    requires
        board.wf(),
    ensures
        board.history_moved(offset).wf(),
        board.history_moved(offset).history == board.history,
{
    let target = board.cursor + offset;
    if 0 <= target < board.history.len() {
        let shifted = BoardView { cursor: target, ..board };
        lemma_same_graph(board, shifted);
        lemma_with_stones_keeps_topology(shifted, board.history[target]);
    }
}

/// Undo, then redo: going back `n` of the moves made and forward `n` again
/// puts the board exactly where it stood.
pub proof fn lemma_undo_then_redo<S: Spinor>(board: BoardView<S>, n: int)
    requires
        board.wf(),
        0 <= n <= board.cursor,
    ensures
        board.history_moved(-n).history_moved(n) == board,
        board.history_moved(-n).cursor == board.cursor - n,
        board.history_moved(-n).stones() == board.history[board.cursor - n],
{
    let back = board.history_moved(-n);
    let forth = back.history_moved(n);
    assert(forth.points =~= board.points);
}

/// A request that would leave the history changes nothing.
pub proof fn lemma_history_move_out_of_range<S: Spinor>(board: BoardView<S>, offset: int)
    requires
        board.cursor + offset < 0 || board.cursor + offset >= board.history.len(),
    ensures
        board.history_moved(offset) == board,
{
}

impl<S: Spinor> Board<S> {
    /// Records the stones on the board as the move after the cursor,
    /// dropping whatever had been undone.
    pub fn save_move(&mut self)
        requires
            old(self)@.topology_wf(),
            old(self)@.history_in_shape(),
            old(self)@.cursor + 1 < i32::MAX,
        ensures
            final(self)@ == old(self)@.move_saved(),
            final(self)@.wf(),
    {
        let mut snapshot: Vec<StoneType> = Vec::new();
        let mut i: usize = 0;
        while i < self.points.len()
            invariant
                i <= self.points@.len(),
                *self == *old(self),
                snapshot@ == self@.stones().take(i as int),
            decreases self.points@.len() - i,
        {
            snapshot.push(self.points[i].ty);
            i += 1;
        }
        self.history_idx += 1;
        self.history.truncate(self.history_idx as usize);
        self.history.push(snapshot);
        proof {
            assert(snapshot@ =~= old(self)@.stones());
            assert(self@.history =~= old(self)@.move_saved().history);
            lemma_move_saved_wf(old(self)@);
        }
    }

    /// Shifts the cursor by `offset` and puts the stones of the snapshot it
    /// reaches back on the board. A request that would leave the history is
    /// ignored.
    pub fn move_history(&mut self, offset: i32)
        requires
            old(self)@.wf(),
        ensures
            final(self)@ == old(self)@.history_moved(offset as int),
            final(self)@.wf(),
    {
        let target: i64 = self.history_idx as i64 + offset as i64;
        if target < 0 || target >= self.history.len() as i64 {
            return ;
        }
        self.history_idx = target as i32;
        let at = target as usize;
        let ghost shifted = self@;
        let ghost snapshot = self@.history[target as int];
        let n = self.points.len();
        let mut i: usize = 0;
        proof {
            lemma_history_moved_wf(old(self)@, offset as int);
        }
        while i < n
            invariant
                i <= n,
                n == self.points@.len(),
                n == shifted.points.len(),
                snapshot.len() == n,
                at == target,
                at < self.history@.len(),
                snapshot == self.history@[at as int]@,
                self@.links == shifted.links,
                self@.history == shifted.history,
                self@.cursor == shifted.cursor,
                self@.tiling == shifted.tiling,
                forall|q: int| 0 <= q < n ==> #[trigger] self@.points[q] == (PointView {
                    stone: if q < i {
                        snapshot[q]
                    } else {
                        shifted.points[q].stone
                    },
                    ..shifted.points[q]
                }),
            decreases n - i,
        {
            let ghost before = *self;
            let ty = self.history[at][i];
            self.points[i].ty = ty;
            proof {
                assert forall|q: int| 0 <= q < n implies #[trigger] self@.points[q] == (PointView {
                    stone: if q < i + 1 {
                        snapshot[q]
                    } else {
                        shifted.points[q].stone
                    },
                    ..shifted.points[q]
                }) by {
                    assert(before@.points[q] == before.points@[q]@);
                }
            }
            i += 1;
        }
        proof {
            assert(self@.points =~= shifted.with_stones(snapshot).points);
        }
    }
}

} // verus!
