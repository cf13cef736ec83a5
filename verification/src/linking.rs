//! Adding a point to the board: where it looks for its neighbors, which
//! points it finds, and what the board is afterwards.

use vstd::prelude::*;
use crate::board::{
    adjacent, contains_index, first_within, graph_wf, is_first_within, lemma_first_within_exists,
    lemma_first_within_unique, Board, BoardPoint, BoardView, PointView, POINT_CEILING,
};
use crate::geometry::{origin_image, Point, Spinor, LINK_TOLERANCE};
use crate::stone::StoneType;

verus! {

/// Whether, seen from a point at `transform`, one of `directions` ends
/// within the link tolerance of the point `i` of `positions`, and of no
/// earlier one.
pub open spec fn is_link_target<S: Spinor>(
    positions: Seq<S::Point>,
    transform: S,
    directions: Seq<S>,
    i: int,
) -> bool {
    exists|k: int|
        0 <= k < directions.len() && 0 <= i && is_first_within(
            positions,
            origin_image(transform.spec_compose(#[trigger] directions[k])),
            LINK_TOLERANCE,
            i,
        )
}

/// The point that is found looking from `transform` along `direction`:
/// the first one within the link tolerance of where the direction ends,
/// or -1.
pub open spec fn link_hit<S: Spinor>(positions: Seq<S::Point>, transform: S, direction: S) -> int {
    first_within(positions, origin_image(transform.spec_compose(direction)), LINK_TOLERANCE)
}

/// The list `base` with the points added that are found from `transform`
/// along `directions`, in the order of the directions, each point once.
pub open spec fn extend_hits<S: Spinor>(base: Seq<i32>, positions: Seq<S::Point>, transform: S, directions: Seq<S>) -> Seq<i32>
    decreases directions.len(),
{
    if directions.len() == 0 {
        base
    } else {
        let before = extend_hits(base, positions, transform, directions.drop_last());
        let hit = link_hit(positions, transform, directions.last());
        if hit >= 0 && !before.contains(hit as i32) {
            before.push(hit as i32)
        } else {
            before
        }
    }
}

/// The neighbors that a point at `transform` finds among `positions`.
pub open spec fn link_hits<S: Spinor>(positions: Seq<S::Point>, transform: S, directions: Seq<S>) -> Seq<i32> {
    extend_hits(Seq::empty(), positions, transform, directions)
}

/// Looking along one list of directions and then along another is looking
/// along both in a row.
pub proof fn lemma_extend_hits_concat<S: Spinor>(
    base: Seq<i32>,
    positions: Seq<S::Point>,
    transform: S,
    first: Seq<S>,
    second: Seq<S>,
)
    ensures
        extend_hits(extend_hits(base, positions, transform, first), positions, transform, second) == extend_hits(
            base,
            positions,
            transform,
            first + second,
        ),
    decreases second.len(),
{
    if second.len() != 0 {
        lemma_extend_hits_concat(base, positions, transform, first, second.drop_last());
        assert((first + second).drop_last() =~= first + second.drop_last());
    }
}

/// What looking along `directions` adds to `base`: nothing twice, nothing
/// off the board, and exactly the points that one of the directions finds.
pub proof fn lemma_extend_hits_sound<S: Spinor>(base: Seq<i32>, positions: Seq<S::Point>, transform: S, directions: Seq<S>)
    requires
        positions.len() <= i32::MAX,
        base.no_duplicates(),
        forall|k: int| 0 <= k < base.len() ==> 0 <= #[trigger] base[k] < positions.len(),
    ensures
        ({
            let hits = extend_hits(base, positions, transform, directions);
            &&& hits.no_duplicates()
            &&& forall|k: int| 0 <= k < hits.len() ==> 0 <= #[trigger] hits[k] < positions.len()
            &&& base.len() <= hits.len()
            &&& hits.take(base.len() as int) == base
            &&& forall|i: int| 0 <= i < positions.len() ==> (hits.contains(i as i32) <==> base.contains(i as i32) || is_link_target(
                positions,
                transform,
                directions,
                i,
            ))
        }),
    decreases directions.len(),
{
    let hits = extend_hits(base, positions, transform, directions);
    if directions.len() != 0 {
        let shorter = directions.drop_last();
        let before = extend_hits(base, positions, transform, shorter);
        let probe = origin_image(transform.spec_compose(directions.last()));
        let hit = link_hit(positions, transform, directions.last());
        lemma_extend_hits_sound(base, positions, transform, shorter);
        lemma_first_within_exists(positions, probe, LINK_TOLERANCE);
        let is_new = hit >= 0 && !before.contains(hit as i32);
        if is_new {
            assert(hits[before.len() as int] == hit as i32);
            assert(hits.take(base.len() as int) =~= before.take(base.len() as int));
        }
        assert forall|i: int| 0 <= i < positions.len() implies (hits.contains(i as i32) <==> base.contains(i as i32)
            || is_link_target(positions, transform, directions, i)) by {
            if is_link_target(positions, transform, shorter, i) {
                let w = choose|w: int| 0 <= w < shorter.len() && 0 <= i && is_first_within(
                    positions, origin_image(transform.spec_compose(#[trigger] shorter[w])), LINK_TOLERANCE, i);
                assert(directions[w] == shorter[w]);
            }
            if is_link_target(positions, transform, directions, i) {
                let w = choose|w: int| 0 <= w < directions.len() && 0 <= i && is_first_within(
                    positions, origin_image(transform.spec_compose(#[trigger] directions[w])), LINK_TOLERANCE, i);
                if w < shorter.len() {
                    assert(shorter[w] == directions[w]);
                } else {
                    lemma_first_within_unique(positions, probe, LINK_TOLERANCE, i);
                }
            }
            if is_new {
                if before.contains(i as i32) {
                    let m = choose|m: int| 0 <= m < before.len() && before[m] == i as i32;
                    assert(hits[m] == i as i32);
                }
            }
        }
    }
}

impl<S: Spinor> BoardView<S> {
    /// The board with one more point at `transform`, linked both ways with
    /// every point that it finds along `directions`.
    pub open spec fn with_point(self, transform: S, reversed: bool, directions: Seq<S>) -> BoardView<S> {
        let n = self.points.len() as int;
        let found = link_hits(self.positions(), transform, directions);
        BoardView {
            points: Seq::new(
                (n + 1) as nat,
                |j: int| if j < n {
                    PointView {
                        neighbors: if found.contains(j as i32) {
                            self.points[j].neighbors.push(n as i32)
                        } else {
                            self.points[j].neighbors
                        },
                        ..self.points[j]
                    }
                } else {
                    PointView {
                        pos: origin_image(transform),
                        transform: transform,
                        relative_transform: transform,
                        neighbors: found,
                        stone: StoneType::Empty,
                        reversed: reversed,
                    }
                },
            ),
            links: self.links + found.map_values(|i: i32| (i, n as i32)),
            ..self
        }
    }
}

impl<S: Spinor> Board<S> {
    /// Looks from `transform` along each of `directions` and links the point
    /// that is about to be added with every point found there. `found`
    /// collects the indices of the points linked so far.
    fn link_towards(&mut self, found: &mut Vec<i32>, transform: S, directions: &Vec<S>)
        requires
            old(self)@.points.len() < POINT_CEILING,
            old(found)@.no_duplicates(),
            forall|k: int| 0 <= k < old(found)@.len() ==> 0 <= #[trigger] old(found)@[k] < old(self)@.points.len(),
        ensures
            final(found)@ == extend_hits(old(found)@, old(self)@.positions(), transform, directions@),
            final(self)@.points.len() == old(self)@.points.len(),
            final(self)@.history == old(self)@.history,
            final(self)@.cursor == old(self)@.cursor,
            final(self)@.tiling == old(self)@.tiling,
            forall|j: int| 0 <= j < old(self)@.points.len() ==> #[trigger] final(self)@.points[j] == (PointView {
                neighbors: if final(found)@.contains(j as i32) && !old(found)@.contains(j as i32) {
                    old(self)@.points[j].neighbors.push(old(self)@.points.len() as i32)
                } else {
                    old(self)@.points[j].neighbors
                },
                ..old(self)@.points[j]
            }),
            final(self)@.links == old(self)@.links + final(found)@.skip(old(found)@.len() as int).map_values(
                |i: i32| (i, old(self)@.points.len() as i32),
            ),
    {
        let this_idx = self.points.len() as i32;
        let ghost n = self@.points.len() as int;
        let ghost base = found@.len() as int;
        let ghost positions = self@.positions();
        let mut k: usize = 0;
        while k < directions.len()
            invariant
                k <= directions.len(),
                n == old(self)@.points.len(),
                n < POINT_CEILING,
                this_idx == n,
                base == old(found)@.len(),
                positions == old(self)@.positions(),
                old(found)@.no_duplicates(),
                forall|m: int| 0 <= m < old(found)@.len() ==> 0 <= #[trigger] old(found)@[m] < n,
                self@.points.len() == n,
                self@.positions() == positions,
                self@.history == old(self)@.history,
                self@.cursor == old(self)@.cursor,
                self@.tiling == old(self)@.tiling,
                found@ == extend_hits(old(found)@, positions, transform, directions@.take(k as int)),
                forall|j: int| 0 <= j < n ==> #[trigger] self@.points[j] == (PointView {
                    neighbors: if found@.contains(j as i32) && !old(found)@.contains(j as i32) {
                        old(self)@.points[j].neighbors.push(n as i32)
                    } else {
                        old(self)@.points[j].neighbors
                    },
                    ..old(self)@.points[j]
                }),
                self@.links == old(self)@.links + found@.skip(base).map_values(|i: i32| (i, n as i32)),
            decreases directions.len() - k,
        {
            let checking_pos = transform.compose(directions[k]).apply(S::Point::zero());
            let i = self.find_point(checking_pos, LINK_TOLERANCE);
            let ghost before = *self;
            let ghost found_before = found@;
            let is_new = i >= 0 && !contains_index(found, i);
            if is_new {
                found.push(i);
                self.points[i as usize].neighbors.push(this_idx);
                self.links.push((i, this_idx));
            }
            proof {
                let shorter = directions@.take(k as int);
                let longer = directions@.take(k + 1);
                assert(longer.drop_last() =~= shorter);
                lemma_extend_hits_sound(old(found)@, positions, transform, shorter);
                if is_new {
                    assert(found@[found_before.len() as int] == i);
                    assert forall|v: i32| #[trigger] found@.contains(v) <==> found_before.contains(v) || v == i by {
                        if found_before.contains(v) {
                            let m = choose|m: int| 0 <= m < found_before.len() && found_before[m] == v;
                            assert(found@[m] == v);
                        }
                    }
                    assert forall|j: int| 0 <= j < n implies #[trigger] self@.points[j] == (PointView {
                        neighbors: if found@.contains(j as i32) && !old(found)@.contains(j as i32) {
                            old(self)@.points[j].neighbors.push(n as i32)
                        } else {
                            old(self)@.points[j].neighbors
                        },
                        ..old(self)@.points[j]
                    }) by {
                        assert(before@.points[j] == before.points@[j]@);
                    }
                }
            }
            k += 1;
        }
        proof {
            assert(directions@.take(k as int) =~= directions@);
        }
    }
}

/// What the board is once a point with the neighbor list `found` has been
/// appended to `pre` and linked: `post` holds that point last, and every
/// point named in `found` has gained the new index.
spec fn point_appended<S: Spinor>(
    pre: BoardView<S>,
    post: BoardView<S>,
    transform: S,
    reversed: bool,
    found: Seq<i32>,
) -> bool {
    let n = pre.points.len() as int;
    &&& post.points.len() == n + 1
    &&& post.history == pre.history
    &&& post.cursor == pre.cursor
    &&& post.tiling == pre.tiling
    &&& post.points[n] == (PointView {
        pos: origin_image(transform),
        transform: transform,
        relative_transform: transform,
        neighbors: found,
        stone: StoneType::Empty,
        reversed: reversed,
    })
    &&& forall|j: int| 0 <= j < n ==> #[trigger] post.points[j] == (PointView {
        neighbors: if found.contains(j as i32) {
            pre.points[j].neighbors.push(n as i32)
        } else {
            pre.points[j].neighbors
        },
        ..pre.points[j]
    })
    &&& post.links == pre.links + found.map_values(|i: i32| (i, n as i32))
}

/// Appending a point and linking it both ways keeps the graph sound.
proof fn lemma_point_appended_keeps_topology<S: Spinor>(
    pre: BoardView<S>,
    post: BoardView<S>,
    transform: S,
    reversed: bool,
    found: Seq<i32>,
)
    requires
        pre.topology_wf(),
        pre.points.len() < POINT_CEILING,
        found.no_duplicates(),
        forall|k: int| 0 <= k < found.len() ==> 0 <= #[trigger] found[k] < pre.points.len(),
        point_appended(pre, post, transform, reversed, found),
    ensures
        post.topology_wf(),
        forall|a: int, b: int| 0 <= a < pre.points.len() && 0 <= b < pre.points.len()
            ==> (post.adjacent(a, b) <==> pre.adjacent(a, b)),
{
    let n = pre.points.len() as int;
    let before = pre.adjacency();
    let after = post.adjacency();
    assert forall|a: int, x: i32| 0 <= a < n implies (#[trigger] after[a].contains(x) <==> before[a].contains(x) || (x == n
        && found.contains(a as i32))) by {
        if found.contains(a as i32) {
            if before[a].contains(x) {
                let m = choose|m: int| 0 <= m < before[a].len() && before[a][m] == x;
                assert(after[a][m] == x);
            }
            if x == n {
                assert(after[a][before[a].len() as int] == x);
            }
        }
    }
    assert forall|a: int, k: int| 0 <= a < after.len() && 0 <= k < after[a].len() implies 0 <= #[trigger] after[a][k]
        < after.len() && after[a][k] != a by {
        if a < n {
            assert(after[a].contains(after[a][k]));
        }
    }
    assert forall|a: int| 0 <= a < after.len() implies (#[trigger] after[a]).no_duplicates() by {
        if a < n {
            assert(before[a].no_duplicates());
        }
    }
    assert forall|a: int, b: int| #[trigger] adjacent(after, a, b) implies adjacent(after, b, a) by {
        if a < n && b < n {
            assert(adjacent(before, a, b));
        } else if a < n {
        } else if b < n {
        } else {
        }
    }
    assert forall|a: int, b: int| 0 <= a < n && 0 <= b < n implies (post.adjacent(a, b) <==> pre.adjacent(a, b)) by {}
    assert forall|a: int, b: int| 0 <= a < b < post.points.len() && #[trigger] post.adjacent(a, b) implies post.links.contains(
        (a as i32, b as i32),
    ) by {
        if b < n {
            let m = choose|m: int| 0 <= m < pre.links.len() && pre.links[m] == (a as i32, b as i32);
            assert(post.links[m] == (a as i32, b as i32));
        } else {
            let m = choose|m: int| 0 <= m < found.len() && found[m] == a as i32;
            assert(post.links[pre.links.len() + m] == (a as i32, b as i32));
        }
    }
}

/// Adding a point keeps the graph sound and the links among the earlier
/// points as they were; the new point is linked with exactly the points
/// that it finds along one of the directions.
pub proof fn lemma_with_point_sound<S: Spinor>(pre: BoardView<S>, transform: S, reversed: bool, directions: Seq<S>)
    requires
        pre.topology_wf(),
        pre.points.len() < POINT_CEILING,
    ensures
        pre.with_point(transform, reversed, directions).topology_wf(),
        pre.with_point(transform, reversed, directions).len() == pre.len() + 1,
        forall|i: int| 0 <= i < pre.len() ==> (pre.with_point(transform, reversed, directions).adjacent(pre.len(), i) <==> is_link_target(
            pre.positions(),
            transform,
            directions,
            i,
        )),
        forall|a: int, b: int| 0 <= a < pre.len() && 0 <= b < pre.len() ==> (pre.with_point(transform, reversed, directions).adjacent(a, b)
            <==> pre.adjacent(a, b)),
{
    let post = pre.with_point(transform, reversed, directions);
    let found = link_hits(pre.positions(), transform, directions);
    lemma_extend_hits_sound(Seq::<i32>::empty(), pre.positions(), transform, directions);
    lemma_point_appended_keeps_topology(pre, post, transform, reversed, found);
}

impl<S: Spinor> Board<S> {
    /// Appends a point at `transform` and links it with every point that
    /// lies one edge away along `neighbor_directions` or
    /// `reverse_neighbor_directions`.
    pub fn add_point(
        &mut self,
        neighbor_directions: &Vec<S>,
        reverse_neighbor_directions: &Vec<S>,
        transform: S,
        reversed: bool,
    )
        requires
            old(self)@.topology_wf(),
            old(self)@.points.len() < POINT_CEILING,
        ensures
            final(self)@ == old(self)@.with_point(transform, reversed, neighbor_directions@ + reverse_neighbor_directions@),
            final(self)@.topology_wf(),
    {
        let pos = transform.apply(S::Point::zero());
        let ghost n = self@.len();
        let ghost positions = self@.positions();
        let ghost all = neighbor_directions@ + reverse_neighbor_directions@;
        let mut found: Vec<i32> = Vec::new();
        self.link_towards(&mut found, transform, neighbor_directions);
        let ghost midway = *self;
        let ghost found_midway = found@;
        proof {
            lemma_extend_hits_sound(Seq::<i32>::empty(), positions, transform, neighbor_directions@);
            assert(midway@.positions() =~= positions);
        }
        self.link_towards(&mut found, transform, reverse_neighbor_directions);
        let ghost linked = *self;
        let point = BoardPoint {
            pos,
            transform,
            relative_transform: transform,
            neighbors: found,
            ty: StoneType::Empty,
            reversed,
        };
        self.points.push(point);
        proof {
            let goal = old(self)@.with_point(transform, reversed, all);
            lemma_extend_hits_concat(
                Seq::<i32>::empty(),
                positions,
                transform,
                neighbor_directions@,
                reverse_neighbor_directions@,
            );
            lemma_extend_hits_sound(found_midway, positions, transform, reverse_neighbor_directions@);
            assert forall|j: int| 0 <= j < n implies self@.points[j] == goal.points[j] by {
                assert(self@.points[j] == linked@.points[j]);
                if found_midway.contains(j as i32) {
                    let m = choose|m: int| 0 <= m < found_midway.len() && found_midway[m] == j as i32;
                    assert(found@[m] == j as i32);
                }
            }
            assert(self@.points =~= goal.points);
            assert(self@.links =~= goal.links);
            lemma_with_point_sound(old(self)@, transform, reversed, all);
        }
    }
}

} // verus!
