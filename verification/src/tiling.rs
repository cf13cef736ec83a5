//! The generator: grows the board ring by ring out of the seed point,
//! walking along the tiling's edges and dropping every candidate that
//! coincides with a point already there.

use vstd::prelude::*;
use crate::board::{
    first_within, is_first_within, lemma_first_within_unique, lemma_same_graph, Board, BoardView, PointView, POINT_CEILING,
};
use crate::linking::{is_link_target, lemma_with_point_sound};
use crate::geometry::{origin_image, Point, Spinor, TilingParameters, COINCIDENCE_TOLERANCE};
use crate::stone::StoneType;

verus! {

/// The directions in which a point looks for its neighbors: one edge along
/// each of the `around_vertex` turns, then the reverse of each.
pub open spec fn tiling_directions<S: Spinor>(sides: u32, around_vertex: u32) -> Seq<S> {
    Seq::new(
        2 * around_vertex as nat,
        |k: int| if k < around_vertex {
            S::spec_neighbor_direction(sides, around_vertex, k as u32)
        } else {
            S::spec_neighbor_direction(sides, around_vertex, (k - around_vertex) as u32).spec_reverse()
        },
    )
}

/// The directions of the edges that leave a point, one for each of the
/// `around_vertex` turns.
pub open spec fn forward_directions<S: Spinor>(sides: u32, around_vertex: u32) -> Seq<S> {
    Seq::new(around_vertex as nat, |k: int| S::spec_neighbor_direction(sides, around_vertex, k as u32))
}

/// Whether the `k`-th edge of a walk that left a point of handedness
/// `origin_reversed` is taken backwards.
pub open spec fn walks_backwards(origin_reversed: bool, k: int) -> bool {
    (k % 2 == 1) != origin_reversed
}

/// Where the `k`-th edge of the walk in direction `j` leads from `cur`:
/// around the tile, one turn further with every edge, renormalized.
pub open spec fn walk_step<S: Spinor>(forward: Seq<S>, origin_reversed: bool, cur: S, j: int, k: int) -> S {
    let dir = forward[(j + k) % (forward.len() as int)];
    if walks_backwards(origin_reversed, k) {
        cur.spec_compose(dir.spec_reverse()).spec_normalize()
    } else {
        cur.spec_compose(dir).spec_normalize()
    }
}

impl<S: Spinor> BoardView<S> {
    /// Whether the board has reached the point ceiling.
    pub open spec fn full(self) -> bool {
        self.points.len() >= POINT_CEILING
    }

    /// The board after the rest of one walk, which stands at `cur` and
    /// takes its `k`-th edge next. Every place not yet on the board becomes
    /// a point; the walk ends at the first known place after its first
    /// edge, or when the board is full.
    pub open spec fn after_walk(self, forward: Seq<S>, all: Seq<S>, origin_reversed: bool, cur: S, j: int, k: int) -> BoardView<S>
        decreases POINT_CEILING - self.points.len(), (if k == 0 { 1int } else { 0int }),
    {
        let next = walk_step(forward, origin_reversed, cur, j, k);
        if self.full() {
            self
        } else if first_within(self.positions(), origin_image(next), COINCIDENCE_TOLERANCE) != -1 {
            if k != 0 {
                self
            } else {
                self.after_walk(forward, all, origin_reversed, next, j, 1)
            }
        } else {
            self.with_point(next, !walks_backwards(origin_reversed, k), all).after_walk(
                forward,
                all,
                origin_reversed,
                next,
                j,
                k + 1,
            )
        }
    }

    /// The board after the walks from the point `i` in the directions from
    /// the `j`-th on.
    pub open spec fn after_walks_from(self, forward: Seq<S>, all: Seq<S>, i: int, j: int) -> BoardView<S>
        decreases forward.len() - j,
    {
        if j >= forward.len() || self.full() {
            self
        } else {
            self.after_walk(forward, all, self.points[i].reversed, self.points[i].transform, j, 0).after_walks_from(
                forward,
                all,
                i,
                j + 1,
            )
        }
    }

    /// The board after the walks from each of the points `i` up to `l`.
    pub open spec fn after_ring(self, forward: Seq<S>, all: Seq<S>, i: int, l: int) -> BoardView<S>
        decreases l - i,
    {
        if i >= l || self.full() {
            self
        } else {
            self.after_walks_from(forward, all, i, 0).after_ring(forward, all, i + 1, l)
        }
    }

    /// The board after `rings` more rings, each grown out of the points
    /// that the ring before it added; `start` is the first of those.
    pub open spec fn after_rings(self, forward: Seq<S>, all: Seq<S>, start: int, rings: nat) -> BoardView<S>
        decreases rings,
    {
        if rings == 0 || self.full() {
            self
        } else {
            self.after_ring(forward, all, start, self.points.len() as int).after_rings(
                forward,
                all,
                self.points.len() as int,
                (rings - 1) as nat,
            )
        }
    }
}

/// The board with no point on it yet.
pub open spec fn blank_board<S: Spinor>(tiling: TilingParameters) -> BoardView<S> {
    BoardView { points: Seq::empty(), links: Seq::empty(), history: Seq::empty(), cursor: 0, tiling }
}

/// The board of `tiling` with `edge_len` points across: the seed, the
/// rings around it, and the empty position as the first snapshot.
pub open spec fn generated_board<S: Spinor>(tiling: TilingParameters, edge_len: nat) -> BoardView<S> {
    let forward = forward_directions::<S>(tiling.sides, tiling.around_vertex);
    let all = tiling_directions::<S>(tiling.sides, tiling.around_vertex);
    let seed = blank_board::<S>(tiling).with_point(S::spec_one(), false, all);
    sealed(seed.after_rings(forward, all, 0, edge_len / 2))
}

/// A full board stays as it is, whatever is left of the generation.
proof fn lemma_full_board_stays<S: Spinor>(
    board: BoardView<S>,
    forward: Seq<S>,
    all: Seq<S>,
    origin_reversed: bool,
    cur: S,
    i: int,
    j: int,
    k: int,
    l: int,
    rings: nat,
)
    requires
        board.full(),
    ensures
        board.after_walk(forward, all, origin_reversed, cur, j, k) == board,
        board.after_walks_from(forward, all, i, j) == board,
        board.after_ring(forward, all, i, l) == board,
        board.after_rings(forward, all, l, rings) == board,
{
}

impl<S: Spinor> BoardView<S> {
    /// No point lies within the coincidence tolerance of an earlier one.
    pub open spec fn separated(self) -> bool {
        forall|j: int| 0 <= j < self.points.len() ==> #[trigger] is_first_within(
            self.positions().take(j),
            self.points[j].pos,
            COINCIDENCE_TOLERANCE,
            -1,
        )
    }

    /// Two points are linked exactly when the later one, looking along one
    /// of `directions`, found the earlier one first among the points that
    /// were on the board before it.
    pub open spec fn links_follow(self, directions: Seq<S>) -> bool {
        forall|i: int, j: int| 0 <= i < j < self.points.len() ==> (#[trigger] self.adjacent(j, i) <==> is_link_target(
            self.positions().take(j),
            self.points[j].transform,
            directions,
            i,
        ))
    }

    /// No stone is on the board and no point has been recentered.
    pub open spec fn untouched(self) -> bool {
        forall|i: int| 0 <= i < self.points.len() ==> (#[trigger] self.points[i]).stone == StoneType::Empty
            && self.points[i].relative_transform == self.points[i].transform
    }

    /// What holds of a board while it grows and once it is complete: it is
    /// sound, it starts at the seed, and its points and links are those
    /// that the geometry gives along `directions`.
    pub open spec fn grown_along(self, directions: Seq<S>) -> bool {
        &&& self.topology_wf()
        &&& 1 <= self.points.len()
        &&& self.points[0].transform == S::spec_one()
        &&& !self.points[0].reversed
        &&& self.untouched()
        &&& self.separated()
        &&& self.links_follow(directions)
    }

    /// What holds of a board as the generator hands it out for `tiling`.
    pub open spec fn generated_for(self, tiling: TilingParameters) -> bool {
        &&& self.wf()
        &&& self.tiling == tiling
        &&& self.cursor == 0
        &&& self.history.len() == 1
        &&& self.grown_along(tiling_directions::<S>(tiling.sides, tiling.around_vertex))
    }
}

/// The board with its stones recorded as the only snapshot of the history.
pub open spec fn sealed<S: Spinor>(board: BoardView<S>) -> BoardView<S> {
    BoardView { history: seq![board.stones()], ..board }
}

/// What holds between two steps of the generation: the board has grown as
/// the geometry prescribes, has room for a point and no history yet, and
/// the direction lists are those of the tiling.
spec fn generating<S: Spinor>(
    board: BoardView<S>,
    tiling: TilingParameters,
    forward: Seq<S>,
    directions: Seq<S>,
    neighbor_directions: Seq<S>,
    reverse_neighbor_directions: Seq<S>,
) -> bool {
    &&& forward == forward_directions::<S>(tiling.sides, tiling.around_vertex)
    &&& directions == tiling_directions::<S>(tiling.sides, tiling.around_vertex)
    &&& neighbor_directions == forward
    &&& neighbor_directions + reverse_neighbor_directions == directions
    &&& board.grown_along(directions)
    &&& !board.full()
    &&& board.history.len() == 0
    &&& board.cursor == 0
    &&& board.tiling == tiling
}

/// A board that grows by one point at a place that no earlier point is
/// close to keeps growing as the geometry prescribes.
proof fn lemma_growth_step<S: Spinor>(
    pre: BoardView<S>,
    post: BoardView<S>,
    directions: Seq<S>,
    transform: S,
    reversed: bool,
)
    requires
        pre.points.len() == 0 || pre.grown_along(directions),
        pre.points.len() == 0 ==> transform == S::spec_one() && !reversed,
        pre.topology_wf(),
        pre.points.len() < POINT_CEILING,
        post == pre.with_point(transform, reversed, directions),
        is_first_within(pre.positions(), origin_image(transform), COINCIDENCE_TOLERANCE, -1),
    ensures
        post.grown_along(directions),
{
    let n = pre.len();
    lemma_with_point_sound(pre, transform, reversed, directions);
    assert forall|j: int| 0 <= j <= n implies #[trigger] post.positions().take(j) == pre.positions().take(j) by {}
    assert(pre.positions().take(n) =~= pre.positions());
    assert forall|i: int, j: int| 0 <= i < j < post.points.len() implies (#[trigger] post.adjacent(j, i) <==> is_link_target(
        post.positions().take(j),
        post.points[j].transform,
        directions,
        i,
    )) by {
        if j < n {
            assert(pre.adjacent(j, i) <==> post.adjacent(j, i));
        }
    }
}

/// Growth is a matter of the points and links alone.
proof fn lemma_growth_ignores_history<S: Spinor>(a: BoardView<S>, b: BoardView<S>, directions: Seq<S>)
    requires
        a.points == b.points,
        a.links == b.links,
        a.grown_along(directions),
    ensures
        b.grown_along(directions),
{
    lemma_same_graph(a, b);
    assert forall|i: int, j: int| 0 <= i < j < b.points.len() implies (#[trigger] b.adjacent(j, i) <==> is_link_target(
        b.positions().take(j),
        b.points[j].transform,
        directions,
        i,
    )) by {
        assert(a.adjacent(j, i) <==> is_link_target(a.positions().take(j), a.points[j].transform, directions, i));
    }
}

impl<S: Spinor> Board<S> {
    /// The directions of the tiling, and the reverse of each.
    fn tiling_direction_lists(sides: u32, around_vertex: u32) -> (lists: (Vec<S>, Vec<S>))
        requires
            S::spec_tiling_closes(sides, around_vertex),
        ensures
            lists.0@ == forward_directions::<S>(sides, around_vertex),
            lists.0@ + lists.1@ == tiling_directions::<S>(sides, around_vertex),
    {
        let mut neighbor_directions: Vec<S> = Vec::new();
        let mut reverse_neighbor_directions: Vec<S> = Vec::new();
        let mut i: u32 = 0;
        while i < around_vertex
            invariant
                i <= around_vertex,
                S::spec_tiling_closes(sides, around_vertex),
                neighbor_directions@.len() == i,
                reverse_neighbor_directions@.len() == i,
                forall|k: int| 0 <= k < i ==> #[trigger] neighbor_directions@[k] == S::spec_neighbor_direction(sides, around_vertex, k as u32),
                forall|k: int| 0 <= k < i ==> #[trigger] reverse_neighbor_directions@[k] == S::spec_neighbor_direction(
                    sides,
                    around_vertex,
                    k as u32,
                ).spec_reverse(),
            decreases around_vertex - i,
        {
            let direction = S::neighbor_direction(sides, around_vertex, i);
            neighbor_directions.push(direction);
            reverse_neighbor_directions.push(direction.reverse());
            i += 1;
        }
        (neighbor_directions, reverse_neighbor_directions)
    }

    /// Closes the generation: records the empty board as the first
    /// snapshot of the history.
    fn with_first_snapshot(self) -> (board: Board<S>)
        requires
            self@.topology_wf(),
            self@.untouched(),
            self@.history.len() == 0,
            self@.cursor == 0,
        ensures
            board@ == sealed(self@),
            board@.wf(),
    {
        let mut board = self;
        let n = board.points.len();
        let mut snapshot: Vec<StoneType> = Vec::new();
        let mut i: usize = 0;
        while i < n
            invariant
                i <= n,
                snapshot@.len() == i,
                forall|k: int| 0 <= k < i ==> snapshot@[k] == StoneType::Empty,
            decreases n - i,
        {
            snapshot.push(StoneType::Empty);
            i += 1;
        }
        board.history.push(snapshot);
        proof {
            assert(snapshot@ =~= self@.stones());
            assert(board@.history =~= seq![self@.stones()]);
            lemma_same_graph(self@, board@);
        }
        board
    }

    /// Builds the board of a regular tiling: the seed point and
    /// `edge_len / 2` rings around it, or fewer where the point ceiling is
    /// reached first.
    pub fn make_board(tiling_parameters: TilingParameters, edge_len: usize) -> (board: Board<S>)
        requires
            edge_len % 2 == 1,
            S::spec_tiling_closes(tiling_parameters.sides, tiling_parameters.around_vertex),
        ensures
            board@ == generated_board::<S>(tiling_parameters, edge_len as nat),
            board@.generated_for(tiling_parameters),
            edge_len == 1 ==> board@.len() == 1,
    {
        let (neighbor_directions, reverse_neighbor_directions) = Self::tiling_direction_lists(
            tiling_parameters.sides,
            tiling_parameters.around_vertex,
        );
        let ghost forward = forward_directions::<S>(tiling_parameters.sides, tiling_parameters.around_vertex);
        let ghost directions = tiling_directions::<S>(tiling_parameters.sides, tiling_parameters.around_vertex);
        let mut board = Board {
            points: Vec::new(),
            links: Vec::new(),
            history: Vec::new(),
            history_idx: 0,
            tiling_parameters,
        };
        proof {
            assert(board@.points =~= Seq::<PointView<S>>::empty());
            assert(board@.history =~= Seq::<Seq<StoneType>>::empty());
        }
        let ghost blank = board@;
        board.add_point(&neighbor_directions, &reverse_neighbor_directions, S::one(), false);
        proof {
            lemma_first_within_unique(blank.positions(), origin_image(S::spec_one()), COINCIDENCE_TOLERANCE, -1);
            lemma_growth_step(blank, board@, directions, S::spec_one(), false);
        }
        let rings = edge_len / 2;
        // Every loop keeps the board that the rest of the generation leads
        // to: what is left to do from here gives the same board as what
        // was left to do at the start.
        let ghost goal = board@.after_rings(forward, directions, 0, rings as nat);
        let mut start_i: usize = 0;
        let mut ring: usize = 0;
        while ring < rings
            invariant
                ring <= rings,
                rings == edge_len / 2,
                rings == 0 ==> board@.len() == 1,
                start_i <= board.points@.len(),
                generating(board@, tiling_parameters, forward, directions, neighbor_directions@, reverse_neighbor_directions@),
                generated_board::<S>(tiling_parameters, edge_len as nat) == sealed(goal),
                goal == board@.after_rings(forward, directions, start_i as int, (rings - ring) as nat),
            decreases rings - ring,
        {
            let l = board.points.len();
            let ghost rest = (rings - ring - 1) as nat;
            let mut i = start_i;
            while i < l
                invariant
                    start_i <= i <= l,
                    l <= board.points@.len(),
                    edge_len != 1,
                    generating(board@, tiling_parameters, forward, directions, neighbor_directions@, reverse_neighbor_directions@),
                    generated_board::<S>(tiling_parameters, edge_len as nat) == sealed(goal),
                    goal == board@.after_ring(forward, directions, i as int, l as int).after_rings(forward, directions, l as int, rest),
                decreases l - i,
            {
                let mut j: usize = 0;
                while j < neighbor_directions.len()
                    invariant
                        j <= neighbor_directions@.len(),
                        i < l <= board.points@.len(),
                        edge_len != 1,
                        generating(board@, tiling_parameters, forward, directions, neighbor_directions@, reverse_neighbor_directions@),
                        generated_board::<S>(tiling_parameters, edge_len as nat) == sealed(goal),
                        goal == board@.after_walks_from(forward, directions, i as int, j as int).after_ring(
                            forward,
                            directions,
                            i + 1,
                            l as int,
                        ).after_rings(forward, directions, l as int, rest),
                    decreases neighbor_directions@.len() - j,
                {
                    let mut cur_transform = board.points[i].transform;
                    let origin_reversed = board.points[i].reversed;
                    let mut k: usize = 0;
                    loop
                        invariant_except_break
                            goal == board@.after_walk(forward, directions, origin_reversed, cur_transform, j as int, k as int).after_walks_from(
                                forward,
                                directions,
                                i as int,
                                j + 1,
                            ).after_ring(forward, directions, i + 1, l as int).after_rings(forward, directions, l as int, rest),
                        invariant
                            j < neighbor_directions@.len(),
                            i < l <= board.points@.len(),
                            k <= board.points@.len(),
                            edge_len != 1,
                            generating(board@, tiling_parameters, forward, directions, neighbor_directions@, reverse_neighbor_directions@),
                            generated_board::<S>(tiling_parameters, edge_len as nat) == sealed(goal),
                        ensures
                            goal == board@.after_walks_from(forward, directions, i as int, j + 1).after_ring(
                                forward,
                                directions,
                                i + 1,
                                l as int,
                            ).after_rings(forward, directions, l as int, rest),
                        // Every edge adds a point, but for a first edge
                        // that ends on a known place.
                        decreases POINT_CEILING - board@.len(), if k == 0 { 1int } else { 0int },
                    {
                        let ghost walk_from = cur_transform;
                        let turn = (j as u64 + k as u64) % (neighbor_directions.len() as u64);
                        let dir = neighbor_directions[turn as usize];
                        let link_reversed = (k % 2 == 1) ^ origin_reversed;
                        cur_transform = if link_reversed {
                            cur_transform.compose(dir.reverse())
                        } else {
                            cur_transform.compose(dir)
                        };
                        cur_transform.normalize();
                        let pos = cur_transform.apply(S::Point::zero());
                        let ghost before = board@;
                        if board.find_point(pos, COINCIDENCE_TOLERANCE) != -1 {
                            if k != 0 {
                                break ;
                            }
                        } else {
                            board.add_point(
                                &neighbor_directions,
                                &reverse_neighbor_directions,
                                cur_transform,
                                !link_reversed,
                            );
                            proof {
                                lemma_growth_step(before, board@, directions, cur_transform, !link_reversed);
                                assert(before.after_walk(forward, directions, origin_reversed, walk_from, j as int, k as int)
                                    == board@.after_walk(forward, directions, origin_reversed, cur_transform, j as int, k + 1));
                            }
                            if board.points.len() >= POINT_CEILING {
                                let ghost full = board@;
                                let sealed = board.with_first_snapshot();
                                proof {
                                    lemma_growth_ignores_history(full, sealed@, directions);
                                    lemma_full_board_stays(
                                        full,
                                        forward,
                                        directions,
                                        origin_reversed,
                                        cur_transform,
                                        i + 1,
                                        j + 1,
                                        k + 1,
                                        l as int,
                                        rest,
                                    );
                                    lemma_full_board_stays(
                                        full,
                                        forward,
                                        directions,
                                        origin_reversed,
                                        cur_transform,
                                        i as int,
                                        j + 1,
                                        k + 1,
                                        l as int,
                                        rest,
                                    );
                                }
                                return sealed;
                            }
                        }
                        k += 1;
                    }
                    j += 1;
                }
                i += 1;
            }
            start_i = l;
            ring += 1;
        }
        let ghost full = board@;
        let sealed = board.with_first_snapshot();
        proof {
            lemma_growth_ignores_history(full, sealed@, directions);
        }
        sealed
    }
}

} // verus!
