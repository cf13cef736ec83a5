//! The board: an append-only arena of points, each holding the indices of
//! its neighbors, together with the stones on them and the move history.

use vstd::prelude::*;
use crate::geometry::{origin_image, Point, Spinor, TilingParameters};
use crate::stone::StoneType;

verus! {

/// A board never grows past this many points, whatever the tiling.
pub const POINT_CEILING: usize = 2500;

/// One point of the board.
pub struct BoardPoint<S: Spinor> {
    pub(crate) pos: S::Point,
    pub(crate) transform: S,
    pub(crate) relative_transform: S,
    pub(crate) neighbors: Vec<i32>,
    pub(crate) ty: StoneType,
    pub(crate) reversed: bool,
}

/// The points of a game, the links between them and the stone history.
pub struct Board<S: Spinor> {
    pub(crate) points: Vec<BoardPoint<S>>,
    pub(crate) links: Vec<(i32, i32)>,
    pub(crate) history: Vec<Vec<StoneType>>,
    pub(crate) history_idx: i32,
    pub(crate) tiling_parameters: TilingParameters,
}

/// What a board point is, as a mathematical value.
pub struct PointView<S: Spinor> {
    /// Where the point lies: the image of the origin under `transform`.
    pub pos: S::Point,
    /// The motion that carries the board's origin to the point.
    pub transform: S,
    /// The same motion as seen from the floating origin.
    pub relative_transform: S,
    /// The indices of the adjacent points.
    pub neighbors: Seq<i32>,
    /// The stone on the point.
    pub stone: StoneType,
    /// Whether the point's handedness is flipped against the seed's.
    pub reversed: bool,
}

/// What a board is, as a mathematical value.
pub struct BoardView<S: Spinor> {
    pub points: Seq<PointView<S>>,
    /// Every link once, as the pair of its smaller and its larger index.
    pub links: Seq<(i32, i32)>,
    /// The stones after each move, oldest first.
    pub history: Seq<Seq<StoneType>>,
    /// The index into `history` of the position on the board.
    pub cursor: int,
    pub tiling: TilingParameters,
}

impl<S: Spinor> View for BoardPoint<S> {
    type V = PointView<S>;

    open(crate) spec fn view(&self) -> PointView<S> {
        PointView {
            pos: self.pos,
            transform: self.transform,
            relative_transform: self.relative_transform,
            neighbors: self.neighbors@,
            stone: self.ty,
            reversed: self.reversed,
        }
    }
}

impl<S: Spinor> View for Board<S> {
    type V = BoardView<S>;

    open(crate) spec fn view(&self) -> BoardView<S> {
        BoardView {
            points: Seq::new(self.points@.len(), |i: int| self.points@[i]@),
            links: self.links@,
            history: Seq::new(self.history@.len(), |k: int| self.history@[k]@),
            cursor: self.history_idx as int,
            tiling: self.tiling_parameters,
        }
    }
}

/// Whether `i` is the first index into `positions` of a point within
/// `tolerance` of `pos`, or -1 where no point is that close.
pub open spec fn is_first_within<P: Point>(positions: Seq<P>, pos: P, tolerance: u32, i: int) -> bool {
    if i == -1 {
        forall|j: int| 0 <= j < positions.len() ==> !pos.spec_within(#[trigger] positions[j], tolerance)
    } else {
        &&& 0 <= i < positions.len()
        &&& pos.spec_within(positions[i], tolerance)
        &&& forall|j: int| 0 <= j < i ==> !pos.spec_within(#[trigger] positions[j], tolerance)
    }
}

/// The first index into `positions` of a point within `tolerance` of `pos`,
/// or -1 where no point is that close.
pub open spec fn first_within<P: Point>(positions: Seq<P>, pos: P, tolerance: u32) -> int {
    choose|i: int| is_first_within(positions, pos, tolerance, i)
}

/// Scans `positions` from `from` on for the first point within reach.
proof fn first_within_from<P: Point>(positions: Seq<P>, pos: P, tolerance: u32, from: int) -> (i: int)
    requires
        0 <= from <= positions.len(),
        forall|j: int| 0 <= j < from ==> !pos.spec_within(#[trigger] positions[j], tolerance),
    ensures
        is_first_within(positions, pos, tolerance, i),
    decreases positions.len() - from,
{
    if from == positions.len() {
        -1
    } else if pos.spec_within(positions[from], tolerance) {
        from
    } else {
        first_within_from(positions, pos, tolerance, from + 1)
    }
}

/// `first_within` names an index that meets the description.
pub proof fn lemma_first_within_exists<P: Point>(positions: Seq<P>, pos: P, tolerance: u32)
    ensures
        is_first_within(positions, pos, tolerance, first_within(positions, pos, tolerance)),
        -1 <= first_within(positions, pos, tolerance) < positions.len(),
{
    let witness = first_within_from(positions, pos, tolerance, 0);
    assert(is_first_within(positions, pos, tolerance, witness));
}

/// There is one first point within reach, or none: whatever index meets
/// the description is the one that `first_within` names.
pub proof fn lemma_first_within_unique<P: Point>(positions: Seq<P>, pos: P, tolerance: u32, i: int)
    requires
        is_first_within(positions, pos, tolerance, i),
    ensures
        first_within(positions, pos, tolerance) == i,
{
    let other = first_within(positions, pos, tolerance);
    if other == -1 && i != -1 {
        assert(!pos.spec_within(positions[i], tolerance));
    } else if other != -1 && i == -1 {
        assert(!pos.spec_within(positions[other], tolerance));
    } else if other < i {
        assert(!pos.spec_within(positions[other], tolerance));
    } else if i < other {
        assert(!pos.spec_within(positions[i], tolerance));
    }
}

impl<S: Spinor> BoardView<S> {
    /// The number of points.
    pub open spec fn len(self) -> int {
        self.points.len() as int
    }

    /// The stone on every point, by index.
    pub open spec fn stones(self) -> Seq<StoneType> {
        Seq::new(self.points.len(), |i: int| self.points[i].stone)
    }

    /// The neighbor list of every point, by index.
    pub open spec fn adjacency(self) -> Seq<Seq<i32>> {
        Seq::new(self.points.len(), |i: int| self.points[i].neighbors)
    }

    /// The position of every point, by index.
    pub open spec fn positions(self) -> Seq<S::Point> {
        Seq::new(self.points.len(), |i: int| self.points[i].pos)
    }

    /// The same board with `stones` on its points.
    pub open spec fn with_stones(self, stones: Seq<StoneType>) -> BoardView<S> {
        BoardView {
            points: Seq::new(self.points.len(), |i: int| PointView { stone: stones[i], ..self.points[i] }),
            ..self
        }
    }

    /// The same board with every relative transform taken anew as
    /// `camera_r` after the point's own transform.
    pub open spec fn recentered(self, camera_r: S) -> BoardView<S> {
        BoardView {
            points: Seq::new(
                self.points.len(),
                |i: int| PointView { relative_transform: camera_r.spec_compose(self.points[i].transform), ..self.points[i] },
            ),
            ..self
        }
    }

    /// Whether the points `a` and `b` are linked.
    pub open spec fn adjacent(self, a: int, b: int) -> bool {
        adjacent(self.adjacency(), a, b)
    }

    /// Every point lies where its transform puts the origin.
    pub open spec fn positions_cached(self) -> bool {
        forall|i: int| 0 <= i < self.points.len() ==> (#[trigger] self.points[i]).pos == origin_image(self.points[i].transform)
    }

    /// The link list names every linked pair exactly once, smaller index first.
    pub open spec fn links_wf(self) -> bool {
        &&& self.links.no_duplicates()
        &&& forall|k: int| 0 <= k < self.links.len() ==> {
            let (a, b) = #[trigger] self.links[k];
            0 <= a < b < self.points.len() && self.adjacent(a as int, b as int)
        }
        &&& forall|a: int, b: int| 0 <= a < b < self.points.len() && #[trigger] self.adjacent(a, b)
            ==> self.links.contains((a as i32, b as i32))
    }

    /// The graph is sound: the ceiling holds, links are symmetric, and the
    /// positions and the link list agree with the points.
    pub open spec fn topology_wf(self) -> bool {
        &&& self.points.len() <= POINT_CEILING
        &&& graph_wf(self.adjacency())
        &&& self.links_wf()
        &&& self.positions_cached()
    }

    /// The history holds whole snapshots, the cursor lies inside it, and the
    /// stones on the board are those of the snapshot under the cursor.
    pub open spec fn history_wf(self) -> bool {
        &&& 0 <= self.cursor < self.history.len() <= i32::MAX
        &&& forall|k: int| 0 <= k < self.history.len() ==> (#[trigger] self.history[k]).len() == self.points.len()
        &&& self.history[self.cursor] == self.stones()
    }

    /// The invariant of a board between two operations.
    pub open spec fn wf(self) -> bool {
        &&& self.topology_wf()
        &&& self.history_wf()
    }
}

/// Whether `b` stands in the neighbor list of `a`.
pub open spec fn adjacent(adjacency: Seq<Seq<i32>>, a: int, b: int) -> bool {
    &&& 0 <= a < adjacency.len()
    &&& 0 <= b < adjacency.len()
    &&& adjacency[a].contains(b as i32)
}

/// Neighbor lists that describe an undirected graph without loops or
/// double links.
pub open spec fn graph_wf(adjacency: Seq<Seq<i32>>) -> bool {
    &&& forall|a: int, k: int| 0 <= a < adjacency.len() && 0 <= k < adjacency[a].len()
        ==> 0 <= #[trigger] adjacency[a][k] < adjacency.len() && adjacency[a][k] != a
    &&& forall|a: int| 0 <= a < adjacency.len() ==> (#[trigger] adjacency[a]).no_duplicates()
    &&& forall|a: int, b: int| #[trigger] adjacent(adjacency, a, b) ==> adjacent(adjacency, b, a)
}

/// Links run both ways: `b` is a neighbor of `a` exactly when `a` is a
/// neighbor of `b`.
pub proof fn lemma_adjacency_symmetric(adjacency: Seq<Seq<i32>>, a: int, b: int)
    requires
        graph_wf(adjacency),
    ensures
        adjacent(adjacency, a, b) <==> adjacent(adjacency, b, a),
{
}

impl<S: Spinor> BoardView<S> {
    /// Whether `other` has the same points at the same places with the same
    /// links: it may differ in its stones, its relative transforms and its
    /// history.
    pub open spec fn same_graph(self, other: BoardView<S>) -> bool {
        &&& other.points.len() == self.points.len()
        &&& other.links == self.links
        &&& forall|i: int| 0 <= i < self.points.len() ==> {
            &&& (#[trigger] other.points[i]).neighbors == self.points[i].neighbors
            &&& other.points[i].pos == self.points[i].pos
            &&& other.points[i].transform == self.points[i].transform
        }
    }
}

/// Boards with the same graph are sound together.
pub proof fn lemma_same_graph<S: Spinor>(board: BoardView<S>, other: BoardView<S>)
    requires
        board.same_graph(other),
    ensures
        other.adjacency() == board.adjacency(),
        other.positions() == board.positions(),
        board.topology_wf() ==> other.topology_wf(),
{
    assert(other.adjacency() =~= board.adjacency());
    assert forall|a: int, b: int| other.adjacent(a, b) == board.adjacent(a, b) by {}
}

/// Other stones on the same points leave the graph as it is.
pub proof fn lemma_with_stones_keeps_topology<S: Spinor>(board: BoardView<S>, stones: Seq<StoneType>)
    requires
        board.topology_wf(),
    ensures
        board.with_stones(stones).topology_wf(),
        board.with_stones(stones).adjacency() == board.adjacency(),
        board.with_stones(stones).positions() == board.positions(),
        stones.len() == board.points.len() ==> board.with_stones(stones).stones() == stones,
{
    lemma_same_graph(board, board.with_stones(stones));
}

/// Recentering touches neither the graph nor the stones.
pub proof fn lemma_recentered_keeps_wf<S: Spinor>(board: BoardView<S>, camera_r: S)
    ensures
        board.recentered(camera_r).adjacency() == board.adjacency(),
        board.recentered(camera_r).positions() == board.positions(),
        board.recentered(camera_r).stones() == board.stones(),
        board.topology_wf() ==> board.recentered(camera_r).topology_wf(),
        board.wf() ==> board.recentered(camera_r).wf(),
{
    lemma_same_graph(board, board.recentered(camera_r));
}

/// A position within reach of exactly one point finds that point, and one
/// within reach of none finds nothing.
pub proof fn lemma_sole_point_in_reach<P: Point>(positions: Seq<P>, pos: P, tolerance: u32)
    ensures
        (forall|j: int| 0 <= j < positions.len() ==> !pos.spec_within(#[trigger] positions[j], tolerance)) ==> first_within(
            positions,
            pos,
            tolerance,
        ) == -1,
        forall|i: int|
            0 <= i < positions.len() && pos.spec_within(#[trigger] positions[i], tolerance) && (forall|j: int|
                0 <= j < positions.len() && j != i ==> !pos.spec_within(#[trigger] positions[j], tolerance)) ==> first_within(
                positions,
                pos,
                tolerance,
            ) == i,
{
    if forall|j: int| 0 <= j < positions.len() ==> !pos.spec_within(#[trigger] positions[j], tolerance) {
        lemma_first_within_unique(positions, pos, tolerance, -1);
    }
    assert forall|i: int|
        0 <= i < positions.len() && pos.spec_within(#[trigger] positions[i], tolerance) && (forall|j: int|
            0 <= j < positions.len() && j != i ==> !pos.spec_within(#[trigger] positions[j], tolerance)) implies first_within(
        positions,
        pos,
        tolerance,
    ) == i by {
        lemma_first_within_unique(positions, pos, tolerance, i);
    }
}

/// Whether `x` occurs in `v`.
pub fn contains_index(v: &Vec<i32>, x: i32) -> (found: bool)
    ensures
        found == v@.contains(x),
{
    let mut k: usize = 0;
    while k < v.len()
        invariant
            k <= v.len(),
            forall|j: int| 0 <= j < k ==> v@[j] != x,
        decreases v.len() - k,
    {
        if v[k] == x {
            return true;
        }
        k += 1;
    }
    false
}

impl<S: Spinor> Board<S> {
    /// The index of the first point within `dist` thousandths of a unit of
    /// `pos`, or -1 where there is none.
    pub fn find_point(&self, pos: S::Point, dist: u32) -> (i: i32)
        requires
            self@.points.len() <= POINT_CEILING,
        ensures
            i == first_within(self@.positions(), pos, dist),
            is_first_within(self@.positions(), pos, dist, i as int),
    {
        let mut i: usize = 0;
        while i < self.points.len()
            invariant
                i <= self.points.len(),
                self@.points.len() == self.points.len(),
                self@.points.len() <= POINT_CEILING,
                forall|j: int| 0 <= j < i ==> !pos.spec_within(#[trigger] self@.positions()[j], dist),
            decreases self.points.len() - i,
        {
            if pos.within(self.points[i].pos, dist) {
                proof {
                    lemma_first_within_unique(self@.positions(), pos, dist, i as int);
                }
                return i as i32;
            }
            i += 1;
        }
        proof {
            lemma_first_within_unique(self@.positions(), pos, dist, -1);
        }
        -1
    }
}

impl<S: Spinor> Board<S> {
    /// Takes the relative transform of every point anew, as `camera_r`
    /// after the point's own transform.
    pub fn update_floating_origin(&mut self, camera_r: &S)
        ensures
            final(self)@ == old(self)@.recentered(*camera_r),
    {
        let n = self.points.len();
        let mut i: usize = 0;
        while i < n
            invariant
                i <= n,
                n == self.points@.len(),
                n == old(self)@.points.len(),
                self@.links == old(self)@.links,
                self@.history == old(self)@.history,
                self@.cursor == old(self)@.cursor,
                self@.tiling == old(self)@.tiling,
                forall|q: int| 0 <= q < n ==> #[trigger] self@.points[q] == (PointView {
                    relative_transform: if q < i {
                        camera_r.spec_compose(old(self)@.points[q].transform)
                    } else {
                        old(self)@.points[q].relative_transform
                    },
                    ..old(self)@.points[q]
                }),
            decreases n - i,
        {
            let ghost before = *self;
            let relative = camera_r.compose(self.points[i].transform);
            self.points[i].relative_transform = relative;
            proof {
                assert forall|q: int| 0 <= q < n implies #[trigger] self@.points[q] == (PointView {
                    relative_transform: if q < i + 1 {
                        camera_r.spec_compose(old(self)@.points[q].transform)
                    } else {
                        old(self)@.points[q].relative_transform
                    },
                    ..old(self)@.points[q]
                }) by {
                    assert(before@.points[q] == before.points@[q]@);
                }
            }
            i += 1;
        }
        proof {
            assert(self@.points =~= old(self)@.recentered(*camera_r).points);
        }
    }
}

} // verus!
