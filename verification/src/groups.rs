//! Groups of stones and their liberties, as statements about the board graph.
//!
//! A group is a set of like-colored stones connected through links; a liberty
//! of a group is an empty point linked to one of its stones.

use vstd::prelude::*;
use vstd::set_lib::{lemma_int_range, lemma_len_subset, set_int_range};
use crate::board::adjacent;
use crate::stone::StoneType;

verus! {

/// Whether `path` walks along links over points that all hold `color`.
pub open spec fn is_chain(adjacency: Seq<Seq<i32>>, stones: Seq<StoneType>, path: Seq<int>, color: StoneType) -> bool {
    &&& path.len() > 0
    &&& forall|k: int| 0 <= k < path.len() ==> 0 <= #[trigger] path[k] < stones.len() && stones[path[k]] == color
    &&& forall|k: int| 0 <= k < path.len() - 1 ==> adjacent(adjacency, #[trigger] path[k], path[k + 1])
}

/// Whether `b` is reached from `a` over points that hold what `a` holds.
pub open spec fn same_group(adjacency: Seq<Seq<i32>>, stones: Seq<StoneType>, a: int, b: int) -> bool {
    exists|path: Seq<int>| #[trigger] is_chain(adjacency, stones, path, stones[a]) && path.first() == a && path.last() == b
}

/// Whether the group of the stone on `a` touches an empty point.
pub open spec fn has_liberty(adjacency: Seq<Seq<i32>>, stones: Seq<StoneType>, a: int) -> bool {
    exists|b: int, c: int| #[trigger] same_group(adjacency, stones, a, b) && #[trigger] adjacent(adjacency, b, c) && stones[c] == StoneType::Empty
}

/// Whether `q` belongs to a group of `color` that touches `p` and has no
/// liberty: the stones that leave the board when a stone lands on `p`.
pub open spec fn is_captured(adjacency: Seq<Seq<i32>>, stones: Seq<StoneType>, p: int, color: StoneType, q: int) -> bool {
    exists|s: int| #[trigger] adjacent(adjacency, p, s) && stones[s] == color && same_group(adjacency, stones, s, q)
        && !has_liberty(adjacency, stones, s)
}

/// The stones once every captured stone around `p` is taken off.
pub open spec fn after_capture(adjacency: Seq<Seq<i32>>, stones: Seq<StoneType>, p: int, color: StoneType) -> Seq<StoneType> {
    Seq::new(stones.len(), |q: int| if is_captured(adjacency, stones, p, color, q) {
        StoneType::Empty
    } else {
        stones[q]
    })
}

/// Whether a stone landing on `p` takes any stone of `color` off the board.
pub open spec fn captures_any(adjacency: Seq<Seq<i32>>, stones: Seq<StoneType>, p: int, color: StoneType) -> bool {
    exists|q: int| 0 <= q < stones.len() && #[trigger] is_captured(adjacency, stones, p, color, q)
}

/// Every point is in its own group.
pub proof fn lemma_same_group_reflexive(adjacency: Seq<Seq<i32>>, stones: Seq<StoneType>, a: int)
    requires
        0 <= a < stones.len(),
    ensures
        same_group(adjacency, stones, a, a),
{
    let path = seq![a];
    assert(is_chain(adjacency, stones, path, stones[a]));
}

/// Both ends of a group hold the same and lie on the board.
pub proof fn lemma_same_group_color(adjacency: Seq<Seq<i32>>, stones: Seq<StoneType>, a: int, b: int)
    requires
        same_group(adjacency, stones, a, b),
    ensures
        0 <= a < stones.len(),
        0 <= b < stones.len(),
        stones[b] == stones[a],
{
}

/// A group grows along a link to a point that holds the same.
pub proof fn lemma_same_group_extend(adjacency: Seq<Seq<i32>>, stones: Seq<StoneType>, a: int, b: int, c: int)
    requires
        same_group(adjacency, stones, a, b),
        adjacent(adjacency, b, c),
        0 <= c < stones.len(),
        stones[c] == stones[a],
    ensures
        same_group(adjacency, stones, a, c),
{
    let path = choose|path: Seq<int>| #[trigger] is_chain(adjacency, stones, path, stones[a]) && path.first() == a && path.last() == b;
    let longer = path.push(c);
    assert(is_chain(adjacency, stones, longer, stones[a]));
}

/// Whether `members` holds, with each of its points, every linked point of
/// the same `color`.
pub open spec fn closed_under_links(adjacency: Seq<Seq<i32>>, stones: Seq<StoneType>, members: Seq<i32>, color: StoneType) -> bool {
    forall|x: i32, y: i32| #[trigger] members.contains(x) && #[trigger] adjacent(adjacency, x as int, y as int) && stones[y as int] == color
        ==> members.contains(y)
}

/// A chain that starts inside a set closed under links stays inside it.
proof fn lemma_chain_stays_inside(
    adjacency: Seq<Seq<i32>>,
    stones: Seq<StoneType>,
    members: Seq<i32>,
    color: StoneType,
    path: Seq<int>,
    k: int,
)
    requires
        stones.len() <= i32::MAX,
        is_chain(adjacency, stones, path, color),
        0 <= k < path.len(),
        members.contains(path[0] as i32),
        closed_under_links(adjacency, stones, members, color),
    ensures
        members.contains(path[k] as i32),
    decreases k,
{
    if k > 0 {
        lemma_chain_stays_inside(adjacency, stones, members, color, path, k - 1);
    }
}

/// A set that holds `start` and is closed under links holds the whole group
/// of `start`.
pub proof fn lemma_group_inside_closed_set(
    adjacency: Seq<Seq<i32>>,
    stones: Seq<StoneType>,
    members: Seq<i32>,
    start: int,
    q: int,
)
    requires
        stones.len() <= i32::MAX,
        0 <= start < stones.len(),
        members.contains(start as i32),
        closed_under_links(adjacency, stones, members, stones[start]),
        same_group(adjacency, stones, start, q),
    ensures
        members.contains(q as i32),
{
    let path = choose|path: Seq<int>| #[trigger] is_chain(adjacency, stones, path, stones[start]) && path.first() == start && path.last() == q;
    lemma_chain_stays_inside(adjacency, stones, members, stones[start], path, path.len() - 1);
}

/// Distinct indices below `n` are at most `n` in number.
pub proof fn lemma_distinct_indices_bounded(indices: Seq<i32>, n: int)
    requires
        0 <= n,
        indices.no_duplicates(),
        forall|k: int| 0 <= k < indices.len() ==> 0 <= #[trigger] indices[k] < n,
    ensures
        indices.len() <= n,
{
    let wide = indices.map_values(|v: i32| v as int);
    wide.unique_seq_to_set();
    lemma_int_range(0, n);
    lemma_len_subset(wide.to_set(), set_int_range(0, n));
}

} // verus!
