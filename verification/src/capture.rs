//! Liberty search over the board graph: which groups a new stone captures,
//! and whether the stone itself is left without a liberty.

use vstd::prelude::*;
use crate::board::{adjacent, contains_index, lemma_with_stones_keeps_topology, Board, PointView, POINT_CEILING};
use crate::geometry::Spinor;
use crate::groups::{
    after_capture, captures_any, closed_under_links, has_liberty, is_captured, lemma_distinct_indices_bounded,
    lemma_group_inside_closed_set, lemma_same_group_color, lemma_same_group_extend, lemma_same_group_reflexive,
    same_group,
};
use crate::stone::StoneType;

verus! {

/// Whether the search may still have to look at `y`: it is where the search
/// began, or a neighbor of a point already taken into the group.
spec fn on_frontier(adjacency: Seq<Seq<i32>>, checked: Seq<i32>, start: i32, y: i32) -> bool {
    y == start || exists|x: i32| #[trigger] checked.contains(x) && adjacent(adjacency, x as int, y as int)
}

/// Whether nothing more is to be learned from `y`: it waits on the stack, it
/// is in the group, or it holds a stone of another color.
spec fn accounted_for(stones: Seq<StoneType>, color: StoneType, stack: Seq<i32>, checked: Seq<i32>, y: i32) -> bool {
    stack.contains(y) || checked.contains(y) || (stones[y as int] != color && stones[y as int] != StoneType::Empty)
}

impl<S: Spinor> Board<S> {
    /// Searches the group of `color` that holds `start` for a liberty.
    /// Returns the stones of the group where it has none, and `None` where
    /// it has one or `start` is empty.
    pub fn trapped_group(&self, start: i32, color: StoneType) -> (group: Option<Vec<i32>>)
        requires
            self@.topology_wf(),
            0 <= start < self@.len(),
            color != StoneType::Empty,
        ensures
            group.is_none() <==> self@.stones()[start as int] == StoneType::Empty || (self@.stones()[start as int] == color
                && has_liberty(self@.adjacency(), self@.stones(), start as int)),
            group.is_some() && self@.stones()[start as int] != color ==> group.unwrap()@.len() == 0,
            group.is_some() && self@.stones()[start as int] == color ==> {
                &&& group.unwrap()@.no_duplicates()
                &&& forall|k: int| 0 <= k < group.unwrap()@.len() ==> 0 <= #[trigger] group.unwrap()@[k] < self@.len()
                &&& forall|q: int| 0 <= q < self@.len() ==> (group.unwrap()@.contains(q as i32) <==> same_group(
                    self@.adjacency(),
                    self@.stones(),
                    start as int,
                    q,
                ))
            },
    {
        let ghost adjacency = self@.adjacency();
        let ghost stones = self@.stones();
        let ghost n = self@.len();
        let mut search_stack: Vec<i32> = Vec::new();
        search_stack.push(start);
        let mut checked: Vec<i32> = Vec::new();
        proof {
            assert(search_stack@[0] == start);
        }
        while search_stack.len() > 0
            invariant
                self@.topology_wf(),
                n == self@.len(),
                n == self.points@.len(),
                adjacency == self@.adjacency(),
                stones == self@.stones(),
                0 <= start < n,
                color != StoneType::Empty,
                // What has been checked belongs to the group of `start`.
                checked@.no_duplicates(),
                forall|k: int| 0 <= k < checked@.len() ==> 0 <= #[trigger] checked@[k] < n && stones[checked@[k] as int] == color
                    && same_group(adjacency, stones, start as int, checked@[k] as int),
                // What waits on the stack was reached from the group.
                forall|k: int| 0 <= k < search_stack@.len() ==> 0 <= #[trigger] search_stack@[k] < n && on_frontier(
                    adjacency,
                    checked@,
                    start,
                    search_stack@[k],
                ),
                // No neighbor of the group is forgotten.
                forall|x: i32, y: i32| #[trigger] checked@.contains(x) && #[trigger] adjacent(adjacency, x as int, y as int)
                    ==> accounted_for(stones, color, search_stack@, checked@, y),
                accounted_for(stones, color, search_stack@, checked@, start),
            // Every round checks a new stone or shortens the stack.
            decreases n - checked@.len(), search_stack@.len(),
        {
            let ghost stack_before = search_stack@;
            let ghost checked_before = checked@;
            let i = search_stack.pop().unwrap();
            proof {
                if i != start {
                    let x = choose|x: i32| #[trigger] checked_before.contains(x) && adjacent(adjacency, x as int, i as int);
                    lemma_same_group_color(adjacency, stones, start as int, x as int);
                }
            }
            let ty = self.points[i as usize].ty;
            if ty == StoneType::Empty {
                return None;
            }
            if ty == color && !contains_index(&checked, i) {
                proof {
                    if i == start {
                        lemma_same_group_reflexive(adjacency, stones, start as int);
                    } else {
                        let x = choose|x: i32| #[trigger] checked_before.contains(x) && adjacent(adjacency, x as int, i as int);
                        lemma_same_group_extend(adjacency, stones, start as int, x as int, i as int);
                    }
                }
                let ghost stack_popped = search_stack@;
                let count = self.points[i as usize].neighbors.len();
                let mut k: usize = 0;
                while k < count
                    invariant
                        k <= count,
                        0 <= i < n,
                        n == self.points@.len(),
                        count == self.points@[i as int].neighbors@.len(),
                        search_stack@ == stack_popped + self.points@[i as int].neighbors@.take(k as int),
                    decreases count - k,
                {
                    search_stack.push(self.points[i as usize].neighbors[k]);
                    k += 1;
                }
                checked.push(i);
                proof {
                    let nb = adjacency[i as int];
                    assert(checked@[checked_before.len() as int] == i);
                    assert forall|y: i32| checked_before.contains(y) implies checked@.contains(y) by {
                        let m = choose|m: int| 0 <= m < checked_before.len() && checked_before[m] == y;
                        assert(checked@[m] == y);
                    }
                    assert forall|y: i32| stack_before.contains(y) implies search_stack@.contains(y) || y == i by {
                        let m = choose|m: int| 0 <= m < stack_before.len() && stack_before[m] == y;
                        if m < stack_popped.len() {
                            assert(search_stack@[m] == y);
                        }
                    }
                    assert forall|y: i32| nb.contains(y) implies search_stack@.contains(y) by {
                        let m = choose|m: int| 0 <= m < nb.len() && nb[m] == y;
                        assert(search_stack@[stack_popped.len() + m] == y);
                    }
                    assert forall|m: int| 0 <= m < search_stack@.len() implies 0 <= #[trigger] search_stack@[m] < n && on_frontier(
                        adjacency,
                        checked@,
                        start,
                        search_stack@[m],
                    ) by {
                        if m >= stack_popped.len() {
                            assert(checked@.contains(i));
                        }
                    }
                    assert forall|x: i32, y: i32| #[trigger] checked@.contains(x) && #[trigger] adjacent(adjacency, x as int, y as int)
                        implies accounted_for(stones, color, search_stack@, checked@, y) by {
                        if x != i {
                            assert(checked_before.contains(x));
                        }
                    }
                    lemma_distinct_indices_bounded(checked@, n);
                }
            } else {
                proof {
                    assert forall|y: i32| stack_before.contains(y) implies search_stack@.contains(y) || y == i by {
                        let m = choose|m: int| 0 <= m < stack_before.len() && stack_before[m] == y;
                        if m < search_stack@.len() {
                            assert(search_stack@[m] == y);
                        }
                    }
                }
            }
        }
        proof {
            // The stack is empty: what has been checked is closed under
            // links of its color, so it is the whole group, and none of its
            // neighbors is empty.
            if stones[start as int] == color {
                assert forall|q: int| 0 <= q < n implies (checked@.contains(q as i32) <==> same_group(adjacency, stones, start as int, q)) by {
                    if same_group(adjacency, stones, start as int, q) {
                        lemma_group_inside_closed_set(adjacency, stones, checked@, start as int, q);
                    }
                }
                if has_liberty(adjacency, stones, start as int) {
                    let (b, c) = choose|b: int, c: int| #[trigger] same_group(adjacency, stones, start as int, b) && #[trigger] adjacent(adjacency, b, c)
                        && stones[c] == StoneType::Empty;
                    lemma_same_group_color(adjacency, stones, start as int, b);
                    lemma_group_inside_closed_set(adjacency, stones, checked@, start as int, b);
                }
            } else {
                if checked@.len() > 0 {
                    lemma_same_group_color(adjacency, stones, start as int, checked@[0] as int);
                }
            }
        }
        Some(checked)
    }
}

/// Whether the `j`-th of the `neighbors` of a point holds `color` and heads a
/// group without a liberty that `q` belongs to.
spec fn trapped_through(
    adjacency: Seq<Seq<i32>>,
    stones: Seq<StoneType>,
    neighbors: Seq<i32>,
    color: StoneType,
    j: int,
    q: int,
) -> bool {
    &&& stones[neighbors[j] as int] == color
    &&& same_group(adjacency, stones, neighbors[j] as int, q)
    &&& !has_liberty(adjacency, stones, neighbors[j] as int)
}

/// The stones with every point named in `taken` emptied.
spec fn without(stones: Seq<StoneType>, taken: Seq<i32>) -> Seq<StoneType> {
    Seq::new(stones.len(), |q: int| if taken.contains(q as i32) {
        StoneType::Empty
    } else {
        stones[q]
    })
}

/// Whether one of the first `k` of the `neighbors` traps `q`.
spec fn trapped_through_any(
    adjacency: Seq<Seq<i32>>,
    stones: Seq<StoneType>,
    neighbors: Seq<i32>,
    color: StoneType,
    k: int,
    q: int,
) -> bool {
    exists|j: int| 0 <= j < k && #[trigger] trapped_through(adjacency, stones, neighbors, color, j, q)
}

impl<S: Spinor> Board<S> {
    /// Takes off the board every group of `color` that touches `point_idx`
    /// and has no liberty. Returns whether any stone was taken.
    pub fn capture_around(&mut self, point_idx: i32, color: StoneType) -> (captured: bool)
        requires
            old(self)@.topology_wf(),
            0 <= point_idx < old(self)@.len(),
            color != StoneType::Empty,
        ensures
            final(self)@ == old(self)@.with_stones(
                after_capture(old(self)@.adjacency(), old(self)@.stones(), point_idx as int, color),
            ),
            captured == captures_any(old(self)@.adjacency(), old(self)@.stones(), point_idx as int, color),
            final(self)@.topology_wf(),
    {
        let ghost adjacency = self@.adjacency();
        let ghost stones = self@.stones();
        let ghost n = self@.len();
        let ghost neighbors = adjacency[point_idx as int];
        let mut captured_idxs: Vec<i32> = Vec::new();
        let count = self.points[point_idx as usize].neighbors.len();
        let mut k: usize = 0;
        while k < count
            invariant
                k <= count,
                *self == *old(self),
                self@.topology_wf(),
                n == self@.len(),
                n == self.points@.len(),
                adjacency == self@.adjacency(),
                stones == self@.stones(),
                0 <= point_idx < n,
                color != StoneType::Empty,
                neighbors == adjacency[point_idx as int],
                neighbors == self.points@[point_idx as int].neighbors@,
                count == neighbors.len(),
                forall|m: int| 0 <= m < captured_idxs@.len() ==> 0 <= #[trigger] captured_idxs@[m] < n,
                forall|q: int| 0 <= q < n ==> (captured_idxs@.contains(q as i32) <==> #[trigger] trapped_through_any(
                    adjacency,
                    stones,
                    neighbors,
                    color,
                    k as int,
                    q,
                )),
            decreases count - k,
        {
            let start = self.points[point_idx as usize].neighbors[k];
            let ghost before = captured_idxs@;
            let ghost grown: Seq<i32> = Seq::empty();
            if self.points[start as usize].ty == color {
                match self.trapped_group(start, color) {
                    Some(mut group) => {
                        proof {
                            grown = group@;
                        }
                        captured_idxs.append(&mut group);
                    },
                    None => {},
                }
            }
            proof {
                assert forall|q: int| 0 <= q < n implies (captured_idxs@.contains(q as i32) <==> #[trigger] trapped_through_any(
                    adjacency,
                    stones,
                    neighbors,
                    color,
                    k + 1,
                    q,
                )) by {
                    assert(before.contains(q as i32) <==> trapped_through_any(adjacency, stones, neighbors, color, k as int, q));
                    if before.contains(q as i32) {
                        let m = choose|m: int| 0 <= m < before.len() && before[m] == q as i32;
                        assert(captured_idxs@[m] == q as i32);
                    }
                    if grown.contains(q as i32) {
                        let m = choose|m: int| 0 <= m < grown.len() && grown[m] == q as i32;
                        assert(captured_idxs@[before.len() + m] == q as i32);
                        assert(trapped_through(adjacency, stones, neighbors, color, k as int, q));
                    }
                }
            }
            k += 1;
        }
        proof {
            assert forall|q: int| 0 <= q < n implies (captured_idxs@.contains(q as i32) <==> is_captured(
                adjacency,
                stones,
                point_idx as int,
                color,
                q,
            )) by {
                assert(captured_idxs@.contains(q as i32) <==> trapped_through_any(adjacency, stones, neighbors, color, k as int, q));
                if captured_idxs@.contains(q as i32) {
                    let j = choose|j: int| 0 <= j < k && #[trigger] trapped_through(adjacency, stones, neighbors, color, j, q);
                    assert(adjacent(adjacency, point_idx as int, neighbors[j] as int));
                }
                if is_captured(adjacency, stones, point_idx as int, color, q) {
                    let s = choose|s: int| #[trigger] adjacent(adjacency, point_idx as int, s) && stones[s] == color && same_group(
                        adjacency,
                        stones,
                        s,
                        q,
                    ) && !has_liberty(adjacency, stones, s);
                    let j = choose|j: int| 0 <= j < neighbors.len() && neighbors[j] == s as i32;
                    assert(trapped_through(adjacency, stones, neighbors, color, j, q));
                }
            }
        }
        let mut m: usize = 0;
        while m < captured_idxs.len()
            invariant
                m <= captured_idxs@.len(),
                n == old(self)@.len(),
                n <= POINT_CEILING,
                n == self.points@.len(),
                stones == old(self)@.stones(),
                forall|m: int| 0 <= m < captured_idxs@.len() ==> 0 <= #[trigger] captured_idxs@[m] < n,
                self@.points == old(self)@.with_stones(without(stones, captured_idxs@.take(m as int))).points,
                self@.links == old(self)@.links,
                self@.history == old(self)@.history,
                self@.cursor == old(self)@.cursor,
                self@.tiling == old(self)@.tiling,
            decreases captured_idxs@.len() - m,
        {
            let ghost before = *self;
            let idx = captured_idxs[m];
            self.points[idx as usize].ty = StoneType::Empty;
            proof {
                let shorter = captured_idxs@.take(m as int);
                let longer = captured_idxs@.take(m + 1);
                assert forall|v: i32| #[trigger] longer.contains(v) <==> shorter.contains(v) || v == idx by {
                    if v == idx {
                        assert(longer[m as int] == idx);
                    }
                }
                let target = old(self)@.with_stones(without(stones, longer));
                let source = old(self)@.with_stones(without(stones, shorter));
                assert forall|q: int| 0 <= q < n implies self@.points[q] == target.points[q] by {
                    assert(before@.points[q] == source.points[q]);
                }
            }
            m += 1;
        }
        proof {
            assert(captured_idxs@.take(m as int) =~= captured_idxs@);
            let goal = after_capture(adjacency, stones, point_idx as int, color);
            assert(without(stones, captured_idxs@) =~= goal);
            if captured_idxs@.len() > 0 {
                assert(is_captured(adjacency, stones, point_idx as int, color, captured_idxs@[0] as int));
            }
            lemma_with_stones_keeps_topology(old(self)@, goal);
        }
        captured_idxs.len() > 0
    }

    /// Whether the stone on `point_idx` stands without a liberty: the point
    /// is not empty, and where it holds `color`, its group touches no empty
    /// point.
    pub fn lacks_liberty(&self, point_idx: i32, color: StoneType) -> (trapped: bool)
        requires
            self@.topology_wf(),
            0 <= point_idx < self@.len(),
            color != StoneType::Empty,
        ensures
            trapped == (self@.stones()[point_idx as int] != StoneType::Empty && !(self@.stones()[point_idx as int] == color
                && has_liberty(self@.adjacency(), self@.stones(), point_idx as int))),
    {
        self.trapped_group(point_idx, color).is_some()
    }
}

} // verus!
