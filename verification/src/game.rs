//! The state of one game: the board, whose turn it is, and what the view
//! layer needs to know between two frames.

use vstd::prelude::*;
use crate::board::{
    first_within, lemma_recentered_keeps_wf, lemma_with_stones_keeps_topology, Board, BoardView, POINT_CEILING,
};
use crate::geometry::{origin_image, Point, Spinor, TilingParameters, RECENTER_DISTANCE, STONE_RADIUS};
use crate::groups::{after_capture, captures_any, has_liberty};
use crate::liberties::{
    lemma_attempt_keeps_alive, lemma_empty_position_alive, lemma_history_moved_keeps_alive, lemma_recentered_keeps_alive,
};
use crate::rules::{lemma_no_capture_leaves_stones, placed};
use crate::stone::{MoveOutcome, StoneType, Turn};
use crate::tiling::generated_board;

verus! {

/// One game in progress.
pub struct GameState<S: Spinor> {
    pub(crate) board: Board<S>,
    pub(crate) turn: Turn,
    pub(crate) floating_origin: S,
    /// The point under the cursor, or -1.
    pub hover_idx: i32,
    /// Whether anything changed that the view has not drawn yet.
    pub needs_render: bool,
}

/// What a game is, as a mathematical value.
pub struct GameView<S: Spinor> {
    pub board: BoardView<S>,
    /// The player to move.
    pub turn: Turn,
    /// The viewpoint against which the relative transforms were last taken.
    pub floating_origin: S,
    pub hover_idx: i32,
    pub needs_render: bool,
}

impl<S: Spinor> View for GameState<S> {
    type V = GameView<S>;

    open(crate) spec fn view(&self) -> GameView<S> {
        GameView {
            board: self.board@,
            turn: self.turn,
            floating_origin: self.floating_origin,
            hover_idx: self.hover_idx,
            needs_render: self.needs_render,
        }
    }
}

impl<S: Spinor> GameView<S> {
    /// The invariant of a game between two operations: the board is
    /// sound, and in every position of the history every stone has a
    /// liberty.
    pub open spec fn wf(self) -> bool {
        &&& self.board.wf()
        &&& self.board.alive()
    }

    /// The index of the point that a click or the cursor at `pos` means:
    /// the first one within the stone radius, or -1.
    pub open spec fn point_at(self, pos: S::Point) -> int {
        first_within(self.board.positions(), pos, STONE_RADIUS)
    }

    /// Whether the place that `camera` takes the origin to lies farther
    /// than the recentering distance from where the floating origin takes it.
    pub open spec fn drifted(self, camera: S) -> bool {
        !origin_image(camera).spec_within(origin_image(self.floating_origin), RECENTER_DISTANCE)
    }

    /// The game with `camera` as its floating origin: every relative
    /// transform is the reverse of the camera, renormalized, after the
    /// point's own transform, and the view is due.
    pub open spec fn recentered_on(self, camera: S) -> GameView<S> {
        GameView {
            board: self.board.recentered(camera.spec_reverse().spec_normalize()),
            floating_origin: camera,
            needs_render: true,
            ..self
        }
    }

    /// Whether one more move fits into the history.
    pub open spec fn can_record_move(self) -> bool {
        self.board.cursor + 1 < i32::MAX
    }

    /// The game after the player to move has tried to place a stone on
    /// `idx`: the board as the rules leave it, and the turn passed on where
    /// the stone stands.
    pub open spec fn after_selection(self, idx: int) -> GameView<S> {
        let accepted = self.board.outcome_of(self.turn, idx).spec_accepted();
        GameView {
            board: self.board.after_attempt(self.turn, idx),
            turn: if accepted {
                self.turn.spec_next()
            } else {
                self.turn
            },
            needs_render: self.needs_render || accepted,
            ..self
        }
    }
}

/// Every point with its stone, in the order of the indices.
pub open spec fn indexed_stones(stones: Seq<StoneType>) -> Seq<(i32, StoneType)> {
    Seq::new(stones.len(), |i: int| (i as i32, stones[i]))
}

/// The points that hold a stone, in the order of their indices, each with
/// its stone.
pub open spec fn occupied(stones: Seq<StoneType>) -> Seq<(i32, StoneType)> {
    indexed_stones(stones).filter(|p: (i32, StoneType)| p.1 != StoneType::Empty)
}

impl<S: Spinor> GameState<S> {
    /// Starts a game on the board of `edge_len` points across, cut from
    /// the tiling of `sides`-gons of which `around_vertex` meet at each
    /// corner. Black moves first.
    pub fn new(edge_len: u32, sides: u32, around_vertex: u32) -> (state: Self)
        requires
            edge_len % 2 == 1,
            S::spec_tiling_closes(sides, around_vertex),
        ensures
            state@.wf(),
            state@.board == generated_board::<S>(TilingParameters { edge_count: edge_len, sides, around_vertex }, edge_len as nat),
            state@.board.generated_for(TilingParameters { edge_count: edge_len, sides, around_vertex }),
            edge_len == 1 ==> state@.board.len() == 1,
            state@.turn == Turn::Black,
            state@.floating_origin == S::spec_one(),
            state@.hover_idx == -1,
            state@.needs_render,
    {
        let board = Board::make_board(TilingParameters::new(edge_len, sides, around_vertex), edge_len as usize);
        proof {
            lemma_empty_position_alive(board@.adjacency(), board@.stones());
        }
        GameState { board, turn: Turn::Black, floating_origin: S::one(), hover_idx: -1, needs_render: true }
    }

    /// Starts a game as `new` does, after testing what `new` demands:
    /// `None` where `edge_len` is even or the tiling does not close.
    pub fn try_new(edge_len: u32, sides: u32, around_vertex: u32) -> (state: Option<Self>)
        ensures
            state.is_some() <==> edge_len % 2 == 1 && S::spec_tiling_closes(sides, around_vertex),
            state.is_some() ==> {
                &&& state.unwrap()@.wf()
                &&& state.unwrap()@.board == generated_board::<S>(
                    TilingParameters { edge_count: edge_len, sides, around_vertex },
                    edge_len as nat,
                )
                &&& state.unwrap()@.board.generated_for(TilingParameters { edge_count: edge_len, sides, around_vertex })
                &&& state.unwrap()@.turn == Turn::Black
                &&& state.unwrap()@.floating_origin == S::spec_one()
                &&& state.unwrap()@.hover_idx == -1
                &&& state.unwrap()@.needs_render
            },
    {
        if edge_len % 2 == 1 && S::tiling_closes(sides, around_vertex) {
            Some(Self::new(edge_len, sides, around_vertex))
        } else {
            None
        }
    }

    /// Takes off the board what a stone of the player to move, standing on
    /// `point_idx`, captures. Returns whether anything was taken.
    pub fn update_captures(&mut self, point_idx: i32) -> (captured: bool)
        requires
            old(self)@.board.topology_wf(),
            0 <= point_idx < old(self)@.board.len(),
        ensures
            final(self)@ == (GameView {
                board: old(self)@.board.with_stones(
                    after_capture(
                        old(self)@.board.adjacency(),
                        old(self)@.board.stones(),
                        point_idx as int,
                        old(self)@.turn.spec_captures(),
                    ),
                ),
                ..old(self)@
            }),
            captured == captures_any(
                old(self)@.board.adjacency(),
                old(self)@.board.stones(),
                point_idx as int,
                old(self)@.turn.spec_captures(),
            ),
    {
        let color = self.turn.captures();
        self.board.capture_around(point_idx, color)
    }

    /// Whether the stone on `point_idx` is without a liberty as a stone of
    /// the player to move: the point is not empty, and where it holds that
    /// player's stone, its group touches no empty point.
    pub fn is_self_capture(&self, point_idx: i32) -> (trapped: bool)
        requires
            self@.board.topology_wf(),
            0 <= point_idx < self@.board.len(),
        ensures
            trapped == (self@.board.stones()[point_idx as int] != StoneType::Empty && !(self@.board.stones()[point_idx as int]
                == self@.turn.spec_stone() && has_liberty(self@.board.adjacency(), self@.board.stones(), point_idx as int))),
    {
        let color = self.turn.stone();
        self.board.lacks_liberty(point_idx, color)
    }

    /// Tries to place a stone of the player to move on the point `idx`.
    /// The turn does not pass on.
    pub fn try_select_index(&mut self, idx: i32) -> (outcome: MoveOutcome)
        requires
            old(self)@.wf(),
            old(self)@.can_record_move(),
        ensures
            outcome == old(self)@.board.outcome_of(old(self)@.turn, idx as int),
            final(self)@ == (GameView { board: old(self)@.board.after_attempt(old(self)@.turn, idx as int), ..old(self)@ }),
            final(self)@.wf(),
    {
        proof {
            lemma_attempt_keeps_alive(self.board@, self.turn, idx as int);
        }
        if idx < 0 || idx as usize >= self.board.points.len() {
            return MoveOutcome::RejectedOffBoard;
        }
        let ghost before = self.board@;
        let ghost adjacency = before.adjacency();
        let ghost stones = before.stones();
        let ghost turn = self.turn;
        match self.board.points[idx as usize].ty {
            StoneType::Empty => {},
            _ => {
                return MoveOutcome::RejectedOccupied;
            },
        }
        self.board.points[idx as usize].ty = self.turn.stone();
        proof {
            let target = before.with_stones(placed(stones, turn, idx as int));
            assert(self.board@.points =~= target.points);
            lemma_with_stones_keeps_topology(before, placed(stones, turn, idx as int));
        }
        let captured = self.update_captures(idx);
        proof {
            let taken = after_capture(adjacency, placed(stones, turn, idx as int), idx as int, turn.spec_captures());
            assert(self.board@.points =~= before.with_stones(taken).points);
            lemma_with_stones_keeps_topology(before, taken);
        }
        if !captured {
            proof {
                lemma_no_capture_leaves_stones(adjacency, placed(stones, turn, idx as int), idx as int, turn.spec_captures());
            }
            if self.is_self_capture(idx) {
                let ghost board_trapped = self.board;
                self.board.points[idx as usize].ty = StoneType::Empty;
                proof {
                    assert forall|q: int| 0 <= q < before.len() implies self.board@.points[q] == before.points[q] by {
                        assert(board_trapped@.points[q] == board_trapped.points@[q]@);
                    }
                    assert(self.board@.points =~= before.points);
                }
                return MoveOutcome::RejectedSelfCapture;
            }
        }
        self.board.save_move();
        if captured {
            MoveOutcome::CapturedAndAccepted
        } else {
            MoveOutcome::AcceptedNoCapture
        }
    }

    /// Tries to place a stone of the player to move on the point at `pos`.
    /// The turn does not pass on.
    pub fn try_select_point(&mut self, pos: S::Point) -> (outcome: MoveOutcome)
        requires
            old(self)@.wf(),
            old(self)@.can_record_move(),
        ensures
            outcome == old(self)@.board.outcome_of(old(self)@.turn, old(self)@.point_at(pos)),
            final(self)@ == (GameView {
                board: old(self)@.board.after_attempt(old(self)@.turn, old(self)@.point_at(pos)),
                ..old(self)@
            }),
            final(self)@.wf(),
    {
        let i = self.board.find_point(pos, STONE_RADIUS);
        self.try_select_index(i)
    }

    /// Places a stone of the player to move on the point `idx`, if the
    /// rules allow it, and passes the turn on.
    pub fn select_index(&mut self, idx: i32) -> (outcome: MoveOutcome)
        requires
            old(self)@.wf(),
            old(self)@.can_record_move(),
        ensures
            outcome == old(self)@.board.outcome_of(old(self)@.turn, idx as int),
            final(self)@ == old(self)@.after_selection(idx as int),
            final(self)@.wf(),
    {
        let outcome = self.try_select_index(idx);
        if outcome.accepted() {
            self.turn = self.turn.next();
            self.needs_render = true;
        }
        outcome
    }

    /// Places a stone of the player to move on the point at `pos`, if there
    /// is one and the rules allow it, and passes the turn on.
    pub fn select_point(&mut self, pos: S::Point) -> (outcome: MoveOutcome)
        requires
            old(self)@.wf(),
            old(self)@.can_record_move(),
        ensures
            outcome == old(self)@.board.outcome_of(old(self)@.turn, old(self)@.point_at(pos)),
            final(self)@ == old(self)@.after_selection(old(self)@.point_at(pos)),
            final(self)@.wf(),
    {
        let i = self.board.find_point(pos, STONE_RADIUS);
        self.select_index(i)
    }

    /// Finds the point under the cursor and remembers it as the hover point.
    pub fn check_hover_point(&mut self, maybe_pos: Option<S::Point>) -> (hit: Option<(S::Point, i32)>)
        requires
            old(self)@.wf(),
        ensures
            final(self)@ == (GameView { hover_idx: final(self)@.hover_idx, ..old(self)@ }),
            final(self)@.hover_idx == match maybe_pos {
                Some(pos) => old(self)@.point_at(pos),
                None => -1,
            },
            hit == if final(self)@.hover_idx >= 0 {
                Some((old(self)@.board.positions()[final(self)@.hover_idx as int], final(self)@.hover_idx))
            } else {
                None
            },
    {
        match maybe_pos {
            Some(pos) => {
                self.hover_idx = self.board.find_point(pos, STONE_RADIUS);
                if self.hover_idx >= 0 {
                    Some((self.board.points[self.hover_idx as usize].pos, self.hover_idx))
                } else {
                    None
                }
            },
            None => {
                self.hover_idx = -1;
                None
            },
        }
    }

    /// Whether `camera` has moved farther than the recentering distance
    /// from the floating origin.
    pub fn floating_origin_drifted(&self, camera: &S) -> (drifted: bool)
        ensures
            drifted == self@.drifted(*camera),
    {
        let here = camera.apply(S::Point::zero());
        let reference = self.floating_origin.apply(S::Point::zero());
        !here.within(reference, RECENTER_DISTANCE)
    }

    /// Makes `camera` the floating origin and takes every relative
    /// transform anew against it: the reverse of the camera, renormalized,
    /// after the point's own transform.
    pub fn update_floating_origin(&mut self, camera: &S)
        ensures
            final(self)@ == old(self)@.recentered_on(*camera),
            old(self)@.wf() ==> final(self)@.wf(),
    {
        let mut camera_r = camera.reverse();
        camera_r.normalize();
        self.board.update_floating_origin(&camera_r);
        self.floating_origin = *camera;
        self.needs_render = true;
        proof {
            lemma_recentered_keeps_wf(old(self)@.board, camera_r);
            if old(self)@.wf() {
                lemma_recentered_keeps_alive(old(self)@.board, camera_r);
            }
        }
    }

    /// Recenters on `camera` where it has drifted from the floating origin.
    /// Returns whether it did.
    pub fn follow_viewpoint(&mut self, camera: &S) -> (recentered: bool)
        ensures
            recentered == old(self)@.drifted(*camera),
            final(self)@ == if recentered {
                old(self)@.recentered_on(*camera)
            } else {
                old(self)@
            },
            old(self)@.wf() ==> final(self)@.wf(),
    {
        if self.floating_origin_drifted(camera) {
            self.update_floating_origin(camera);
            true
        } else {
            false
        }
    }

    /// Goes `offset` moves forth in the history, or back where it is
    /// negative. A request that would leave the history changes no stone.
    pub fn move_history(&mut self, offset: i32)
        requires
            old(self)@.wf(),
        ensures
            final(self)@ == (GameView { board: old(self)@.board.history_moved(offset as int), needs_render: true, ..old(self)@ }),
            final(self)@.wf(),
    {
        self.board.move_history(offset);
        self.needs_render = true;
        proof {
            lemma_history_moved_keeps_alive(old(self)@.board, offset as int);
        }
    }

    /// The number of the move to be made next, counted from one.
    pub fn get_turn_count(&self) -> (count: i32)
        requires
            self@.wf(),
        ensures
            count == self@.board.cursor + 1,
    {
        self.board.history_idx + 1
    }
}

impl<S: Spinor> GameState<S> {
    /// The player to move.
    pub fn turn(&self) -> (turn: Turn)
        ensures
            turn == self@.turn,
    {
        self.turn
    }

    /// The number of points on the board.
    pub fn point_count(&self) -> (count: usize)
        ensures
            count == self@.board.len(),
    {
        self.board.points.len()
    }

    /// The stone on the point `idx`.
    pub fn stone_at(&self, idx: i32) -> (stone: StoneType)
        requires
            0 <= idx < self@.board.len(),
        ensures
            stone == self@.board.stones()[idx as int],
    {
        self.board.points[idx as usize].ty
    }

    /// The indices of the points linked with the point `idx`.
    pub fn neighbors_of(&self, idx: i32) -> (neighbors: &Vec<i32>)
        requires
            0 <= idx < self@.board.len(),
        ensures
            neighbors@ == self@.board.adjacency()[idx as int],
    {
        &self.board.points[idx as usize].neighbors
    }

    /// Where the point `idx` lies.
    pub fn position_of(&self, idx: i32) -> (pos: S::Point)
        requires
            0 <= idx < self@.board.len(),
        ensures
            pos == self@.board.positions()[idx as int],
    {
        self.board.points[idx as usize].pos
    }

    /// The motion that carries the board's origin to the point `idx`.
    pub fn transform_of(&self, idx: i32) -> (transform: S)
        requires
            0 <= idx < self@.board.len(),
        ensures
            transform == self@.board.points[idx as int].transform,
    {
        self.board.points[idx as usize].transform
    }

    /// The motion that carries the floating origin to the point `idx`.
    pub fn relative_transform_of(&self, idx: i32) -> (transform: S)
        requires
            0 <= idx < self@.board.len(),
        ensures
            transform == self@.board.points[idx as int].relative_transform,
    {
        self.board.points[idx as usize].relative_transform
    }

    /// The points that hold a stone, in the order of their indices, each
    /// with its stone.
    pub fn occupied_points(&self) -> (stones: Vec<(i32, StoneType)>)
        requires
            self@.wf(),
        ensures
            stones@ == occupied(self@.board.stones()),
    {
        let mut stones: Vec<(i32, StoneType)> = Vec::new();
        let n = self.board.points.len();
        let ghost all = indexed_stones(self@.board.stones());
        let ghost holds = |p: (i32, StoneType)| p.1 != StoneType::Empty;
        let mut i: usize = 0;
        proof {
            reveal(Seq::filter);
        }
        while i < n
            invariant
                i <= n,
                n == self.board.points@.len(),
                n == self@.board.len(),
                n <= POINT_CEILING,
                all == indexed_stones(self@.board.stones()),
                holds == |p: (i32, StoneType)| p.1 != StoneType::Empty,
                stones@ == all.take(i as int).filter(holds),
            decreases n - i,
        {
            let ty = self.board.points[i].ty;
            proof {
                reveal(Seq::filter);
                assert(all.take(i + 1).drop_last() =~= all.take(i as int));
            }
            if ty != StoneType::Empty {
                stones.push((i as i32, ty));
            }
            i += 1;
        }
        proof {
            assert(all.take(n as int) =~= all);
        }
        stones
    }

    /// The stone to preview under the cursor: the hover point and the
    /// player to move, where the hover point is on the board and empty.
    pub fn hover_preview(&self) -> (preview: Option<(i32, Turn)>)
        ensures
            preview == if 0 <= self@.hover_idx < self@.board.len() && self@.board.stones()[self@.hover_idx as int]
                == StoneType::Empty {
                Some((self@.hover_idx, self@.turn))
            } else {
                None
            },
    {
        if self.hover_idx >= 0 && (self.hover_idx as usize) < self.board.points.len() {
            match self.board.points[self.hover_idx as usize].ty {
                StoneType::Empty => Some((self.hover_idx, self.turn)),
                _ => None,
            }
        } else {
            None
        }
    }

    /// Every link of the board once, smaller index first.
    pub fn links(&self) -> (links: &Vec<(i32, i32)>)
        ensures
            links@ == self@.board.links,
    {
        &self.board.links
    }

    /// The viewpoint against which the relative transforms were last taken.
    pub fn floating_origin(&self) -> (origin: S)
        ensures
            origin == self@.floating_origin,
    {
        self.floating_origin
    }

    /// The tiling that the board was cut from.
    pub fn tiling_parameters(&self) -> (tiling: TilingParameters)
        ensures
            tiling == self@.board.tiling,
    {
        self.board.tiling_parameters
    }
}

} // verus!
