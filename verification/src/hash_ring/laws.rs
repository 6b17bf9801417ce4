//! What holds of every ring in order: of distances, of the walk round the
//! ring, of who owns a resource, and of adding and removing nodes.

use vstd::prelude::*;
use vstd::arithmetic::power2::{lemma_pow2_pos, pow2};
use crate::hash_ring::ring::{
    added, has_node, in_order, lemma_owner, lemma_rank, nearer, next_index, owner, rank, removed,
    ring_distance,
};

verus! {

/// Node `i` is the nearest node to position `r`, going forward.
pub open spec fn nearest(ring: Seq<(int, Set<i64>)>, k: nat, r: int, i: int) -> bool {
    &&& 0 <= i < ring.len()
    &&& forall|j: int|
        0 <= j < ring.len() ==> ring_distance(k, r, ring[i].0) <= ring_distance(
            k,
            r,
            (#[trigger] ring[j]).0,
        )
}

/// Every resource is a position of the ring and lies on the node nearest to it.
pub open spec fn routed(ring: Seq<(int, Set<i64>)>, k: nat) -> bool {
    forall|i: int, r: i64|
        0 <= i < ring.len() && #[trigger] ring[i].1.contains(r) ==> 0 <= r < pow2(k) && nearest(
            ring,
            k,
            r as int,
            i,
        )
}

/// The index reached from node `i` among `n` nodes after `t` steps to the next node.
pub open spec fn walk(n: int, i: int, t: nat) -> int
    decreases t,
{
    if t == 0 {
        i
    } else {
        next_index(n, walk(n, i, (t - 1) as nat))
    }
}

/// The distance from a position to itself is zero, and the distances
/// between two different positions, there and back, add up to the whole ring.
pub proof fn law_distances_complement(k: nat, a: int, b: int)
    ensures
        ring_distance(k, a, a) == 0,
        a != b ==> ring_distance(k, a, b) + ring_distance(k, b, a) == pow2(k),
{
}

/// The walk from the head visits the nodes in ascending order of position
/// and is back at the head after as many steps as there are nodes, not before.
pub proof fn law_walk_returns_to_head(ring: Seq<(int, Set<i64>)>, max: int, t: nat)
    requires
        in_order(ring, max),
        t <= ring.len(),
    ensures
        t < ring.len() ==> walk(ring.len() as int, 0, t) == t,
        0 < t < ring.len() ==> ring[walk(ring.len() as int, 0, (t - 1) as nat)].0 < ring[walk(
            ring.len() as int,
            0,
            t,
        )].0,
        t == ring.len() ==> walk(ring.len() as int, 0, t) == 0,
    decreases t,
{
    if t > 0 {
        law_walk_returns_to_head(ring, max, (t - 1) as nat);
        if t < ring.len() {
            assert(ring[t - 1].0 < ring[t as int].0);
        }
    }
}

/// The owner of a position is the node nearest to it, going forward.
pub proof fn law_owner_is_nearest(ring: Seq<(int, Set<i64>)>, k: nat, h: int)
    requires
        in_order(ring, pow2(k) - 1),
        ring.len() > 0,
    ensures
        nearest(ring, k, h, owner(ring, h)),
{
    let max = pow2(k) - 1;
    let n = ring.len() as int;
    lemma_owner(ring, max, h);
    lemma_pow2_pos(k);
    let s = owner(ring, h);
    assert forall|j: int| 0 <= j < n implies ring_distance(k, h, ring[s].0) <= ring_distance(
        k,
        h,
        (#[trigger] ring[j]).0,
    ) by {
        if j < s {
            assert(ring[j].0 < ring[s].0);
            if s > 0 && j < s - 1 {
                assert(ring[j].0 < ring[s - 1].0);
            }
        }
        if j > s {
            assert(ring[s].0 < ring[j].0);
            if j < n - 1 {
                assert(ring[j].0 < ring[n - 1].0);
            }
        }
    }
}

/// Only one node is nearest to a position, so the nearest node is the owner.
pub proof fn law_nearest_is_owner(ring: Seq<(int, Set<i64>)>, k: nat, h: int, i: int)
    requires
        in_order(ring, pow2(k) - 1),
        nearest(ring, k, h, i),
    ensures
        i == owner(ring, h),
{
    law_owner_is_nearest(ring, k, h);
    let s = owner(ring, h);
    lemma_pow2_pos(k);
    assert(ring_distance(k, h, ring[i].0) <= ring_distance(k, h, ring[s].0));
    assert(ring_distance(k, h, ring[s].0) <= ring_distance(k, h, ring[i].0));
    if i < s {
        assert(ring[i].0 < ring[s].0);
    }
    if s < i {
        assert(ring[s].0 < ring[i].0);
    }
}

/// In a ring where every resource lies on its nearest node, a new node can
/// be nearer to a resource only if the resource lies on the new node's successor.
pub proof fn law_only_the_successor_gives_up_resources(
    ring: Seq<(int, Set<i64>)>,
    k: nat,
    h: int,
    i: int,
    r: i64,
)
    requires
        in_order(ring, pow2(k) - 1),
        routed(ring, k),
        0 <= h < pow2(k),
        0 <= i < ring.len(),
        ring[i].1.contains(r),
        ring_distance(k, r as int, h) < ring_distance(k, r as int, ring[i].0),
    ensures
        i == owner(ring, h),
{
    lemma_pow2_pos(k);
    assert(nearest(ring, k, r as int, i));
    assert forall|j: int| 0 <= j < ring.len() implies ring_distance(k, h, ring[i].0)
        <= ring_distance(k, h, (#[trigger] ring[j]).0) by {
        assert(ring_distance(k, r as int, ring[i].0) <= ring_distance(k, r as int, ring[j].0));
        assert(0 <= ring[j].0 < pow2(k));
        assert(0 <= ring[i].0 < pow2(k));
    }
    law_nearest_is_owner(ring, k, h, i);
}

/// Adding a node keeps the ring in order and every resource on its nearest
/// node: the new node has taken exactly the resources it is nearest to.
pub proof fn law_adding_keeps_routing(ring: Seq<(int, Set<i64>)>, k: nat, h: int)
    requires
        in_order(ring, pow2(k) - 1),
        routed(ring, k),
        0 <= h < pow2(k),
        !has_node(ring, h),
    ensures
        in_order(added(ring, k, h), pow2(k) - 1),
        routed(added(ring, k, h), k),
{
    let max = pow2(k) - 1;
    let n = ring.len() as int;
    let after = added(ring, k, h);
    lemma_pow2_pos(k);
    lemma_rank(ring, max, h);
    let p = rank(ring, h);
    if n == 0 {
        assert(after[0] == (h, Set::<i64>::empty()));
        assert forall|i: int, r: i64|
            0 <= i < after.len() && #[trigger] after[i].1.contains(r) implies 0 <= r < pow2(k)
            && nearest(after, k, r as int, i) by {
            assert(after[i] == after[0]);
        }
    } else {
        let s = owner(ring, h);
        let sv = ring[s].0;
        let m = nearer(ring[s].1, k, h, sv);
        if p < n {
            assert(ring[p].0 != h);
        }
        law_owner_is_nearest(ring, k, h);
        // where node `j` of the new ring comes from
        assert forall|j: int| 0 <= j < after.len() implies (#[trigger] after[j]).0 == (if j < p {
            ring[j].0
        } else if j == p {
            h
        } else {
            ring[j - 1].0
        }) by {}
        assert forall|i: int| 0 <= i < after.len() implies 0 <= (#[trigger] after[i]).0 <= max by {
            if i < p {
                assert(0 <= ring[i].0 <= max);
            } else if i > p {
                assert(0 <= ring[i - 1].0 <= max);
            }
        }
        assert forall|i: int, j: int| 0 <= i < j < after.len() implies (#[trigger] after[i]).0 < (
        #[trigger] after[j]).0 by {
            let oi = if i < p { i } else { i - 1 };
            let oj = if j < p { j } else { j - 1 };
            if i != p && j != p {
                assert(ring[oi].0 < ring[oj].0);
            } else if i == p {
                assert(ring[oj].0 >= h);
            } else {
                assert(ring[oi].0 < h);
            }
        }
        assert forall|i: int, r: i64|
            0 <= i < after.len() && #[trigger] after[i].1.contains(r) implies 0 <= r < pow2(k)
            && nearest(after, k, r as int, i) by {
            let oi = if i < p { i } else if i == p { s } else { i - 1 };
            assert(ring[oi].1.contains(r));
            assert(nearest(ring, k, r as int, oi));
            assert(0 <= ring[oi].0 < pow2(k));
            assert forall|j: int| 0 <= j < after.len() implies ring_distance(
                k,
                r as int,
                after[i].0,
            ) <= ring_distance(k, r as int, (#[trigger] after[j]).0) by {
                let oj = if j < p { j } else if j == p { s } else { j - 1 };
                assert(ring_distance(k, r as int, ring[oi].0) <= ring_distance(
                    k,
                    r as int,
                    ring[oj].0,
                ));
                assert(0 <= ring[oj].0 < pow2(k));
                if j == p && i != p {
                    // the new node is not nearer: else `oi` would be its successor
                    if ring_distance(k, r as int, h) < ring_distance(k, r as int, ring[oi].0) {
                        law_only_the_successor_gives_up_resources(ring, k, h, oi, r);
                    }
                }
            }
        }
    }
}

/// Removing a node, but for the last one, keeps the ring in order and every
/// resource on its nearest node: the resources of the removed node lie on its successor.
pub proof fn law_removing_keeps_routing(ring: Seq<(int, Set<i64>)>, k: nat, i: int)
    requires
        in_order(ring, pow2(k) - 1),
        routed(ring, k),
        0 <= i < ring.len(),
    ensures
        in_order(removed(ring, i), pow2(k) - 1),
        routed(removed(ring, i), k),
{
    let max = pow2(k) - 1;
    let n = ring.len() as int;
    let after = removed(ring, i);
    let nx = next_index(n, i);
    lemma_pow2_pos(k);
    assert forall|j: int| 0 <= j < after.len() implies (#[trigger] after[j]).0 == (if j < i {
        ring[j].0
    } else {
        ring[j + 1].0
    }) by {}
    assert forall|a: int| 0 <= a < after.len() implies 0 <= (#[trigger] after[a]).0 <= max by {
        let oa = if a < i { a } else { a + 1 };
        assert(0 <= ring[oa].0 <= max);
    }
    assert forall|a: int, b: int| 0 <= a < b < after.len() implies (#[trigger] after[a]).0 < (
    #[trigger] after[b]).0 by {
        let oa = if a < i { a } else { a + 1 };
        let ob = if b < i { b } else { b + 1 };
        assert(ring[oa].0 < ring[ob].0);
    }
    assert forall|a: int, r: i64|
        0 <= a < after.len() && #[trigger] after[a].1.contains(r) implies 0 <= r < pow2(k)
        && nearest(after, k, r as int, a) by {
        let oa = if a < i { a } else { a + 1 };
        // the node that `r` lay on
        let from = if ring[oa].1.contains(r) { oa } else { i };
        assert(ring[from].1.contains(r));
        assert(nearest(ring, k, r as int, from));
        assert(0 <= ring[oa].0 < pow2(k));
        assert(0 <= ring[i].0 < pow2(k));
        assert forall|b: int| 0 <= b < after.len() implies ring_distance(k, r as int, after[a].0)
            <= ring_distance(k, r as int, (#[trigger] after[b]).0) by {
            let ob = if b < i { b } else { b + 1 };
            assert(ring_distance(k, r as int, ring[from].0) <= ring_distance(
                k,
                r as int,
                ring[ob].0,
            ));
            assert(0 <= ring[ob].0 < pow2(k));
            if from == i && oa != i {
                // `oa` is the successor of the removed node, the nearest of the others
                assert(oa == nx);
                if i < n - 1 {
                    assert(ring[i].0 < ring[i + 1].0);
                    if ob > i + 1 {
                        assert(ring[i + 1].0 < ring[ob].0);
                    }
                    if ob < i {
                        assert(ring[ob].0 < ring[i].0);
                    }
                } else {
                    assert(ring[0].0 < ring[i].0);
                    if ob > 0 {
                        assert(ring[0].0 < ring[ob].0);
                        assert(ring[ob].0 < ring[i].0);
                    }
                }
            }
        }
    }
}

/// A resource put on the owner of its position lies on its nearest node.
pub proof fn law_new_resource_is_routed(ring: Seq<(int, Set<i64>)>, k: nat, r: i64)
    requires
        in_order(ring, pow2(k) - 1),
        routed(ring, k),
        ring.len() > 0,
        0 <= r < pow2(k),
    ensures
        routed(
            ring.update(
                owner(ring, r as int),
                (ring[owner(ring, r as int)].0, ring[owner(ring, r as int)].1.insert(r)),
            ),
            k,
        ),
{
    let s = owner(ring, r as int);
    let after = ring.update(s, (ring[s].0, ring[s].1.insert(r)));
    law_owner_is_nearest(ring, k, r as int);
    assert forall|i: int, x: i64|
        0 <= i < after.len() && #[trigger] after[i].1.contains(x) implies 0 <= x < pow2(k)
        && nearest(after, k, x as int, i) by {
        if !(i == s && x == r) {
            assert(ring[i].1.contains(x));
            assert(nearest(ring, k, x as int, i));
        }
        assert forall|j: int| 0 <= j < after.len() implies ring_distance(k, x as int, after[i].0)
            <= ring_distance(k, x as int, (#[trigger] after[j]).0) by {
            assert(after[j].0 == ring[j].0);
            assert(ring_distance(k, x as int, ring[i].0) <= ring_distance(
                k,
                x as int,
                ring[j].0,
            ));
        }
    }
}

} // verus!
