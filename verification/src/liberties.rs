//! Why the rules keep the board alive: where every stone has a liberty
//! before a move, every stone has one after it.

use vstd::prelude::*;
use crate::board::{adjacent, graph_wf, lemma_same_graph, lemma_with_stones_keeps_topology, BoardView};
use crate::geometry::Spinor;
use crate::groups::{
    after_capture, captures_any, has_liberty, is_captured, is_chain, lemma_same_group_color, lemma_same_group_extend,
    lemma_same_group_reflexive, same_group,
};
use crate::rules::{move_outcome, placed, stones_after_move};
use crate::stone::{StoneType, Turn};

verus! {

/// Whether every stone on the board has a liberty.
pub open spec fn all_alive(adjacency: Seq<Seq<i32>>, stones: Seq<StoneType>) -> bool {
    forall|q: int| 0 <= q < stones.len() && stones[q] != StoneType::Empty ==> #[trigger] has_liberty(adjacency, stones, q)
}

/// Being in one group runs both ways.
pub proof fn lemma_same_group_symmetric(adjacency: Seq<Seq<i32>>, stones: Seq<StoneType>, a: int, b: int)
    requires
        graph_wf(adjacency),
        same_group(adjacency, stones, a, b),
    ensures
        same_group(adjacency, stones, b, a),
{
    lemma_same_group_color(adjacency, stones, a, b);
    let path = choose|path: Seq<int>| #[trigger] is_chain(adjacency, stones, path, stones[a]) && path.first() == a && path.last() == b;
    let back = Seq::new(path.len(), |k: int| path[path.len() - 1 - k]);
    assert(is_chain(adjacency, stones, back, stones[b]));
}

/// Two groups that share a point are one.
pub proof fn lemma_same_group_transitive(adjacency: Seq<Seq<i32>>, stones: Seq<StoneType>, a: int, b: int, c: int)
    requires
        same_group(adjacency, stones, a, b),
        same_group(adjacency, stones, b, c),
    ensures
        same_group(adjacency, stones, a, c),
{
    lemma_same_group_color(adjacency, stones, a, b);
    let first = choose|path: Seq<int>| #[trigger] is_chain(adjacency, stones, path, stones[a]) && path.first() == a && path.last() == b;
    let second = choose|path: Seq<int>| #[trigger] is_chain(adjacency, stones, path, stones[b]) && path.first() == b && path.last() == c;
    let joined = first + second.drop_first();
    assert(is_chain(adjacency, stones, joined, stones[a]));
}

/// Every point of a chain is in the group of the chain's first point.
proof fn lemma_chain_in_group(adjacency: Seq<Seq<i32>>, stones: Seq<StoneType>, path: Seq<int>, k: int)
    requires
        is_chain(adjacency, stones, path, stones[path[0]]),
        0 <= k < path.len(),
    ensures
        same_group(adjacency, stones, path[0], path[k]),
{
    let prefix = path.take(k + 1);
    assert(is_chain(adjacency, stones, prefix, stones[path[0]]));
}

/// A group is the same on two boards that hold the same on every point of
/// the chain that connects its two points.
proof fn lemma_group_carries_over(
    adjacency: Seq<Seq<i32>>,
    stones: Seq<StoneType>,
    other: Seq<StoneType>,
    a: int,
    b: int,
)
    requires
        stones.len() == other.len(),
        same_group(adjacency, stones, a, b),
        forall|x: int| 0 <= x < stones.len() && stones[x] == stones[a] ==> other[x] == stones[x],
    ensures
        same_group(adjacency, other, a, b),
{
    let path = choose|path: Seq<int>| #[trigger] is_chain(adjacency, stones, path, stones[a]) && path.first() == a && path.last() == b;
    assert(is_chain(adjacency, other, path, other[a]));
}

/// A captured stone is of the captured color, and its whole group is
/// captured with it.
proof fn lemma_captured_groups(adjacency: Seq<Seq<i32>>, stones: Seq<StoneType>, p: int, color: StoneType, q: int, x: int)
    requires
        graph_wf(adjacency),
        is_captured(adjacency, stones, p, color, q),
    ensures
        0 <= q < stones.len(),
        stones[q] == color,
        same_group(adjacency, stones, q, x) ==> is_captured(adjacency, stones, p, color, x),
        same_group(adjacency, stones, x, q) ==> is_captured(adjacency, stones, p, color, x),
{
    let s = choose|s: int| #[trigger] adjacent(adjacency, p, s) && stones[s] == color && same_group(adjacency, stones, s, q)
        && !has_liberty(adjacency, stones, s);
    lemma_same_group_color(adjacency, stones, s, q);
    if same_group(adjacency, stones, x, q) {
        lemma_same_group_symmetric(adjacency, stones, x, q);
    }
    if same_group(adjacency, stones, q, x) {
        lemma_same_group_transitive(adjacency, stones, s, q, x);
    }
}

/// A liberty of one stone is a liberty of every stone of its group.
proof fn lemma_liberty_of_the_group(adjacency: Seq<Seq<i32>>, stones: Seq<StoneType>, a: int, b: int)
    requires
        same_group(adjacency, stones, a, b),
        has_liberty(adjacency, stones, b),
    ensures
        has_liberty(adjacency, stones, a),
{
    let (m, c) = choose|m: int, c: int| #[trigger] same_group(adjacency, stones, b, m) && #[trigger] adjacent(adjacency, m, c) && stones[c]
        == StoneType::Empty;
    lemma_same_group_transitive(adjacency, stones, a, b, m);
}

/// A stone that is not captured keeps its group and its liberties when
/// the captured stones leave.
proof fn lemma_survivor_keeps_liberty(adjacency: Seq<Seq<i32>>, stones: Seq<StoneType>, p: int, color: StoneType, q: int)
    requires
        graph_wf(adjacency),
        adjacency.len() == stones.len(),
        color != StoneType::Empty,
        0 <= q < stones.len(),
        stones[q] != StoneType::Empty,
        !is_captured(adjacency, stones, p, color, q),
        has_liberty(adjacency, stones, q),
    ensures
        has_liberty(adjacency, after_capture(adjacency, stones, p, color), q),
{
    let (b, c) = choose|b: int, c: int| #[trigger] same_group(adjacency, stones, q, b) && #[trigger] adjacent(adjacency, b, c) && stones[c]
        == StoneType::Empty;
    lemma_survivors_keep_group(adjacency, stones, p, color, q, b);
    if is_captured(adjacency, stones, p, color, c) {
        lemma_captured_groups(adjacency, stones, p, color, c, c);
    }
}

/// The group of a stone that is not captured is the same after the
/// captured stones have left.
proof fn lemma_survivors_keep_group(adjacency: Seq<Seq<i32>>, stones: Seq<StoneType>, p: int, color: StoneType, q: int, b: int)
    requires
        graph_wf(adjacency),
        0 <= q < stones.len(),
        stones[q] != StoneType::Empty,
        !is_captured(adjacency, stones, p, color, q),
        same_group(adjacency, stones, q, b),
    ensures
        same_group(adjacency, after_capture(adjacency, stones, p, color), q, b),
{
    let after = after_capture(adjacency, stones, p, color);
    let path = choose|path: Seq<int>| #[trigger] is_chain(adjacency, stones, path, stones[q]) && path.first() == q && path.last() == b;
    assert forall|k: int| 0 <= k < path.len() implies after[#[trigger] path[k]] == stones[path[k]] by {
        lemma_chain_in_group(adjacency, stones, path, k);
        if is_captured(adjacency, stones, p, color, path[k]) {
            lemma_captured_groups(adjacency, stones, p, color, path[k], q);
        }
    }
    assert(is_chain(adjacency, after, path, after[q]));
}

/// A stone of the player who does not move that is not captured has a
/// liberty once the new stone stands, before the captured stones leave.
proof fn lemma_opposing_survivor_has_liberty(adjacency: Seq<Seq<i32>>, stones: Seq<StoneType>, turn: Turn, idx: int, q: int)
    requires
        graph_wf(adjacency),
        adjacency.len() == stones.len(),
        0 <= idx < stones.len(),
        stones[idx] == StoneType::Empty,
        all_alive(adjacency, stones),
        0 <= q < stones.len(),
        stones[q] == turn.spec_captures(),
        !is_captured(adjacency, placed(stones, turn, idx), idx, turn.spec_captures(), q),
    ensures
        has_liberty(adjacency, placed(stones, turn, idx), q),
{
    let with_stone = placed(stones, turn, idx);
    assert(has_liberty(adjacency, stones, q));
    let (b, c) = choose|b: int, c: int| #[trigger] same_group(adjacency, stones, q, b) && #[trigger] adjacent(adjacency, b, c) && stones[c]
        == StoneType::Empty;
    lemma_group_carries_over(adjacency, stones, with_stone, q, b);
    lemma_same_group_color(adjacency, stones, q, b);
    if c == idx {
        lemma_same_group_symmetric(adjacency, with_stone, q, b);
        if has_liberty(adjacency, with_stone, b) {
            lemma_liberty_of_the_group(adjacency, with_stone, q, b);
        }
    }
}

/// A stone that stands has a liberty: after an accepted move the group of
/// the new stone touches an empty point.
pub proof fn lemma_new_stone_has_liberty(adjacency: Seq<Seq<i32>>, stones: Seq<StoneType>, turn: Turn, idx: int)
    requires
        graph_wf(adjacency),
        adjacency.len() == stones.len(),
        move_outcome(adjacency, stones, turn, idx).spec_accepted(),
    ensures
        has_liberty(adjacency, stones_after_move(adjacency, stones, turn, idx), idx),
{
    let with_stone = placed(stones, turn, idx);
    let color = turn.spec_captures();
    let after = after_capture(adjacency, with_stone, idx, color);
    if is_captured(adjacency, with_stone, idx, color, idx) {
        lemma_captured_groups(adjacency, with_stone, idx, color, idx, idx);
    }
    if captures_any(adjacency, with_stone, idx, color) {
        let q = choose|q: int| 0 <= q < with_stone.len() && #[trigger] is_captured(adjacency, with_stone, idx, color, q);
        let s = choose|s: int| #[trigger] adjacent(adjacency, idx, s) && with_stone[s] == color && same_group(adjacency, with_stone, s, q)
            && !has_liberty(adjacency, with_stone, s);
        lemma_same_group_reflexive(adjacency, with_stone, s);
        lemma_same_group_reflexive(adjacency, after, idx);
    } else {
        assert(after =~= with_stone);
    }
}

/// What an accepted move changes: the new stone stands on its point, and
/// nothing else leaves or enters the board but captured stones of the
/// other player.
pub proof fn lemma_move_takes_opposing_stones_only(adjacency: Seq<Seq<i32>>, stones: Seq<StoneType>, turn: Turn, idx: int)
    requires
        graph_wf(adjacency),
        adjacency.len() == stones.len(),
        move_outcome(adjacency, stones, turn, idx).spec_accepted(),
    ensures
        stones_after_move(adjacency, stones, turn, idx).len() == stones.len(),
        stones_after_move(adjacency, stones, turn, idx)[idx] == turn.spec_stone(),
        forall|q: int| 0 <= q < stones.len() && q != idx ==> {
            let after = #[trigger] stones_after_move(adjacency, stones, turn, idx)[q];
            after == stones[q] || (stones[q] == turn.spec_captures() && after == StoneType::Empty)
        },
{
    let with_stone = placed(stones, turn, idx);
    let color = turn.spec_captures();
    assert forall|q: int| 0 <= q < stones.len() && is_captured(adjacency, with_stone, idx, color, q) implies with_stone[q] == color by {
        lemma_captured_groups(adjacency, with_stone, idx, color, q, q);
    }
}

/// A stone of the player who moves has a liberty after the move.
proof fn lemma_own_stone_stays_alive(adjacency: Seq<Seq<i32>>, stones: Seq<StoneType>, turn: Turn, idx: int, q: int)
    requires
        graph_wf(adjacency),
        adjacency.len() == stones.len(),
        all_alive(adjacency, stones),
        move_outcome(adjacency, stones, turn, idx).spec_accepted(),
        0 <= q < stones.len(),
        placed(stones, turn, idx)[q] == turn.spec_stone(),
    ensures
        has_liberty(adjacency, stones_after_move(adjacency, stones, turn, idx), q),
{
    let with_stone = placed(stones, turn, idx);
    let color = turn.spec_captures();
    let after = after_capture(adjacency, with_stone, idx, color);
    if is_captured(adjacency, with_stone, idx, color, q) {
        lemma_captured_groups(adjacency, with_stone, idx, color, q, q);
    }
    if same_group(adjacency, with_stone, q, idx) {
        lemma_survivors_keep_group(adjacency, with_stone, idx, color, q, idx);
        lemma_new_stone_has_liberty(adjacency, stones, turn, idx);
        lemma_liberty_of_the_group(adjacency, after, q, idx);
    } else {
        if q == idx {
            lemma_same_group_reflexive(adjacency, with_stone, idx);
        }
        assert(has_liberty(adjacency, stones, q));
        let (b, c) = choose|b: int, c: int| #[trigger] same_group(adjacency, stones, q, b) && #[trigger] adjacent(adjacency, b, c)
            && stones[c] == StoneType::Empty;
        lemma_group_carries_over(adjacency, stones, with_stone, q, b);
        lemma_same_group_color(adjacency, with_stone, q, b);
        if c == idx {
            lemma_same_group_extend(adjacency, with_stone, q, b, idx);
        }
        lemma_survivor_keeps_liberty(adjacency, with_stone, idx, color, q);
    }
}

/// The rules keep the board alive: where every stone has a liberty before
/// an attempt to place a stone, every stone has one after it, whether the
/// stone stands or not.
pub proof fn lemma_moves_keep_stones_alive(adjacency: Seq<Seq<i32>>, stones: Seq<StoneType>, turn: Turn, idx: int)
    requires
        graph_wf(adjacency),
        adjacency.len() == stones.len(),
        all_alive(adjacency, stones),
    ensures
        all_alive(adjacency, stones_after_move(adjacency, stones, turn, idx)),
{
    if move_outcome(adjacency, stones, turn, idx).spec_accepted() {
        let with_stone = placed(stones, turn, idx);
        let color = turn.spec_captures();
        let after = stones_after_move(adjacency, stones, turn, idx);
        assert forall|q: int| 0 <= q < after.len() && after[q] != StoneType::Empty implies #[trigger] has_liberty(adjacency, after, q) by {
            if with_stone[q] == turn.spec_stone() {
                lemma_own_stone_stays_alive(adjacency, stones, turn, idx, q);
            } else {
                lemma_opposing_survivor_has_liberty(adjacency, stones, turn, idx, q);
                lemma_survivor_keeps_liberty(adjacency, with_stone, idx, color, q);
            }
        }
    }
}

impl<S: Spinor> BoardView<S> {
    /// Whether every stone has a liberty in every position of the history.
    pub open spec fn alive(self) -> bool {
        forall|k: int| 0 <= k < self.history.len() ==> all_alive(self.adjacency(), #[trigger] self.history[k])
    }
}

/// A position without stones is alive.
pub proof fn lemma_empty_position_alive(adjacency: Seq<Seq<i32>>, stones: Seq<StoneType>)
    requires
        forall|q: int| 0 <= q < stones.len() ==> stones[q] == StoneType::Empty,
    ensures
        all_alive(adjacency, stones),
{
}

/// An attempt to place a stone, accepted or not, leaves the board alive.
pub proof fn lemma_attempt_keeps_alive<S: Spinor>(board: BoardView<S>, turn: Turn, idx: int)
    requires
        board.wf(),
        board.alive(),
    ensures
        board.after_attempt(turn, idx).alive(),
{
    let after = board.after_attempt(turn, idx);
    if board.outcome_of(turn, idx).spec_accepted() {
        let stones = stones_after_move(board.adjacency(), board.stones(), turn, idx);
        lemma_moves_keep_stones_alive(board.adjacency(), board.stones(), turn, idx);
        lemma_with_stones_keeps_topology(board, stones);
        lemma_same_graph(board.with_stones(stones), after);
    }
}

/// Going through the history leaves the board alive.
pub proof fn lemma_history_moved_keeps_alive<S: Spinor>(board: BoardView<S>, offset: int)
    requires
        board.alive(),
    ensures
        board.history_moved(offset).alive(),
{
    lemma_same_graph(board, board.history_moved(offset));
}

/// Recentering leaves the board alive.
pub proof fn lemma_recentered_keeps_alive<S: Spinor>(board: BoardView<S>, camera_r: S)
    requires
        board.alive(),
    ensures
        board.recentered(camera_r).alive(),
{
    lemma_same_graph(board, board.recentered(camera_r));
}

} // verus!
