//! The mathematics of the ring: forward distance, the order of the nodes,
//! and which node owns a position.

use vstd::prelude::*;
use vstd::arithmetic::power2::{lemma_pow2_pos, pow2};

verus! {

/// The number of forward steps from position `a` to position `b` on a ring of `2^k` positions.
pub open spec fn ring_distance(k: nat, a: int, b: int) -> int {
    if a <= b {
        b - a
    } else {
        pow2(k) + (b - a)
    }
}

/// The index after `i` among `n` nodes in ring order.
pub open spec fn next_index(n: int, i: int) -> int {
    if i + 1 >= n {
        0
    } else {
        i + 1
    }
}

/// The index before `i` among `n` nodes in ring order.
pub open spec fn prev_index(n: int, i: int) -> int {
    if i <= 0 {
        n - 1
    } else {
        i - 1
    }
}

/// The positions strictly ascend and lie in `0 ..= max`.
pub open spec fn in_order(ring: Seq<(int, Set<i64>)>, max: int) -> bool {
    &&& forall|i: int| 0 <= i < ring.len() ==> 0 <= (#[trigger] ring[i]).0 <= max
    &&& forall|i: int, j: int| 0 <= i < j < ring.len() ==> (#[trigger] ring[i]).0 < (#[trigger] ring[j]).0
}

/// Some node is at position `h`.
pub open spec fn has_node(ring: Seq<(int, Set<i64>)>, h: int) -> bool {
    exists|i: int| 0 <= i < ring.len() && (#[trigger] ring[i]).0 == h
}

/// The number of nodes of an ordered ring whose position is below `h`.
pub open spec fn rank(ring: Seq<(int, Set<i64>)>, h: int) -> int
    decreases ring.len(),
{
    if ring.len() == 0 {
        0
    } else if ring.last().0 < h {
        ring.len() as int
    } else {
        rank(ring.drop_last(), h)
    }
}

/// The index of the node that owns position `h`: the first node at or after
/// `h`, and the head when there is none.
pub open spec fn owner(ring: Seq<(int, Set<i64>)>, h: int) -> int {
    if rank(ring, h) == ring.len() {
        0
    } else {
        rank(ring, h)
    }
}

/// Node `j` is the first node at or after `h`, or the head when no node is.
pub open spec fn is_owner(ring: Seq<(int, Set<i64>)>, h: int, j: int) -> bool {
    &&& 0 <= j < ring.len()
    &&& if ring.last().0 < h {
        j == 0
    } else {
        ring[j].0 >= h && (j > 0 ==> ring[j - 1].0 < h)
    }
}

/// The resources among `keys` that lie nearer, going forward, to `dst` than to `src`.
pub open spec fn nearer(keys: Set<i64>, k: nat, dst: int, src: int) -> Set<i64> {
    Set::new(
        |r: i64|
            keys.contains(r) && ring_distance(k, r as int, dst) < ring_distance(k, r as int, src),
    )
}

/// The resources that a move from `src` to `dst` takes along: all of them
/// when forced, else those nearer to `dst`.
pub open spec fn moving(keys: Set<i64>, k: nat, dst: int, src: int, force: bool) -> Set<i64> {
    if force {
        keys
    } else {
        nearer(keys, k, dst, src)
    }
}

/// The ring after resources have moved from node `si` to node `di`.
pub open spec fn moved(ring: Seq<(int, Set<i64>)>, k: nat, di: int, si: int, force: bool) -> Seq<
    (int, Set<i64>),
> {
    let m = moving(ring[si].1, k, ring[di].0, ring[si].0, force);
    ring.update(si, (ring[si].0, ring[si].1.difference(m))).update(
        di,
        (ring[di].0, ring[di].1.union(m)),
    )
}

/// The ring after a node is added at the free position `h`: it comes in at
/// its rank and takes from its successor the resources nearer to itself.
pub open spec fn added(ring: Seq<(int, Set<i64>)>, k: nat, h: int) -> Seq<(int, Set<i64>)> {
    if ring.len() == 0 {
        seq![(h, Set::<i64>::empty())]
    } else {
        let s = owner(ring, h);
        let m = nearer(ring[s].1, k, h, ring[s].0);
        ring.update(s, (ring[s].0, ring[s].1.difference(m))).insert(rank(ring, h), (h, m))
    }
}

/// The ring after node `i` is removed: its resources go to the next node,
/// and are dropped with it when it is the only node.
pub open spec fn removed(ring: Seq<(int, Set<i64>)>, i: int) -> Seq<(int, Set<i64>)> {
    let nx = next_index(ring.len() as int, i);
    ring.update(nx, (ring[nx].0, ring[nx].1.union(ring[i].1))).remove(i)
}

/// The first components of the pairs of `s`.
pub open spec fn firsts(s: Seq<(i64, i64)>) -> Set<i64> {
    Set::new(|r: i64| exists|t: int| 0 <= t < s.len() && (#[trigger] s[t]).0 == r)
}

/// The map `m` with every key in `s` stored under itself.
pub open spec fn with_keys(m: Map<i64, i64>, s: Set<i64>) -> Map<i64, i64> {
    Map::new(
        |r: i64| m.contains_key(r) || s.contains(r),
        |r: i64|
            if s.contains(r) {
                r
            } else {
                m[r]
            },
    )
}

/// `list` lists the resources `keys`: each once, as a pair of the key with
/// itself, in strictly ascending order.
pub open spec fn lists(list: Seq<(i64, i64)>, keys: Set<i64>) -> bool {
    &&& firsts(list) == keys
    &&& forall|t: int| 0 <= t < list.len() ==> (#[trigger] list[t]).1 == list[t].0
    &&& forall|i: int, j: int| 0 <= i < j < list.len() ==> (#[trigger] list[i]).0 < (#[trigger] list[j]).0
}

/// A rearrangement in ascending order of pairs with distinct keys, each a
/// key with itself, lists those keys.
pub proof fn lemma_sorted_lists(before: Seq<(i64, i64)>, after: Seq<(i64, i64)>)
    requires
        before.no_duplicates(),
        forall|t: int| 0 <= t < before.len() ==> (#[trigger] before[t]).1 == before[t].0,
        after.to_multiset() == before.to_multiset(),
        forall|i: int, j: int| 0 <= i <= j < after.len() ==> (#[trigger] after[i]).0 <= (#[trigger] after[j]).0,
    ensures
        lists(after, firsts(before)),
{
    before.to_multiset_ensures();
    after.to_multiset_ensures();
    before.lemma_multiset_has_no_duplicates();
    after.lemma_multiset_has_no_duplicates_conv();
    assert forall|t: int| 0 <= t < after.len() implies (#[trigger] after[t]).1 == after[t].0 by {
        assert(after.contains(after[t]));
        assert(before.to_multiset().count(after[t]) > 0);
        assert(before.contains(after[t]));
        let u = choose|u: int| 0 <= u < before.len() && before[u] == after[t];
        assert(before[u].1 == before[u].0);
    }
    assert forall|i: int, j: int| 0 <= i < j < after.len() implies (#[trigger] after[i]).0 < (
    #[trigger] after[j]).0 by {
        assert(after[i].0 <= after[j].0);
        assert(after[i] != after[j]);
    }
    assert forall|r: i64| firsts(after).contains(r) <==> firsts(before).contains(r) by {
        if firsts(after).contains(r) {
            let t = choose|t: int| 0 <= t < after.len() && (#[trigger] after[t]).0 == r;
            assert(after.contains(after[t]));
            assert(before.to_multiset().count(after[t]) > 0);
            assert(before.contains(after[t]));
            let u = choose|u: int| 0 <= u < before.len() && before[u] == after[t];
            assert(before[u].0 == r);
        }
        if firsts(before).contains(r) {
            let t = choose|t: int| 0 <= t < before.len() && (#[trigger] before[t]).0 == r;
            assert(before.contains(before[t]));
            assert(after.to_multiset().count(before[t]) > 0);
            assert(after.contains(before[t]));
            let u = choose|u: int| 0 <= u < after.len() && after[u] == before[t];
            assert(after[u].0 == r);
        }
    }
    assert(firsts(after) =~= firsts(before));
}

/// Among the first `i + 1` nodes one is at `h` iff one of the first `i` is or node `i` is.
pub proof fn lemma_has_node_take(ring: Seq<(int, Set<i64>)>, i: int, h: int)
    requires
        0 <= i < ring.len(),
    ensures
        has_node(ring.take(i + 1), h) <==> has_node(ring.take(i), h) || ring[i].0 == h,
{
    let a = ring.take(i + 1);
    let b = ring.take(i);
    if has_node(a, h) {
        let j = choose|j: int| 0 <= j < a.len() && (#[trigger] a[j]).0 == h;
        if j < i {
            assert(b[j].0 == h);
        }
    }
    if has_node(b, h) {
        let j = choose|j: int| 0 <= j < b.len() && (#[trigger] b[j]).0 == h;
        assert(a[j].0 == h);
    }
    if ring[i].0 == h {
        assert(a[i].0 == h);
    }
}

/// One more pair adds its first component.
pub proof fn lemma_firsts_push(s: Seq<(i64, i64)>, x: (i64, i64))
    ensures
        firsts(s.push(x)) == firsts(s).insert(x.0),
{
    let a = firsts(s.push(x));
    let b = firsts(s).insert(x.0);
    assert forall|r: i64| a.contains(r) <==> b.contains(r) by {
        if a.contains(r) {
            let t = choose|t: int| 0 <= t < s.push(x).len() && (#[trigger] s.push(x)[t]).0 == r;
            if t < s.len() {
                assert(s[t].0 == r);
            }
        }
        if firsts(s).contains(r) {
            let t = choose|t: int| 0 <= t < s.len() && (#[trigger] s[t]).0 == r;
            assert(s.push(x)[t].0 == r);
        }
        if r == x.0 {
            assert(s.push(x)[s.len() as int].0 == r);
        }
    }
    assert(a =~= b);
}

/// A node at or after which all nodes lie at or after `h`, and before which
/// all lie below `h`, is at the rank of `h`.
pub proof fn lemma_rank_is(ring: Seq<(int, Set<i64>)>, max: int, h: int, p: int)
    requires
        in_order(ring, max),
        0 <= p <= ring.len(),
        forall|j: int| 0 <= j < p ==> (#[trigger] ring[j]).0 < h,
        forall|j: int| p <= j < ring.len() ==> (#[trigger] ring[j]).0 >= h,
    ensures
        rank(ring, h) == p,
{
    lemma_rank(ring, max, h);
    let q = rank(ring, h);
    if q < p {
        assert(ring[q].0 >= h);
    }
    if p < q {
        assert(ring[p].0 < h);
    }
}

/// In an ordered ring the nodes before the rank of `h` lie below `h`, the others at or after it.
pub proof fn lemma_rank(ring: Seq<(int, Set<i64>)>, max: int, h: int)
    requires
        in_order(ring, max),
    ensures
        0 <= rank(ring, h) <= ring.len(),
        forall|j: int| 0 <= j < rank(ring, h) ==> (#[trigger] ring[j]).0 < h,
        forall|j: int| rank(ring, h) <= j < ring.len() ==> (#[trigger] ring[j]).0 >= h,
    decreases ring.len(),
{
    if ring.len() > 0 {
        let front = ring.drop_last();
        assert forall|i: int| 0 <= i < front.len() implies 0 <= (#[trigger] front[i]).0 <= max by {
            assert(front[i] == ring[i]);
        }
        assert forall|i: int, j: int| 0 <= i < j < front.len() implies (#[trigger] front[i]).0 < (
        #[trigger] front[j]).0 by {
            assert(front[i] == ring[i]);
            assert(front[j] == ring[j]);
        }
        lemma_rank(front, max, h);
        if ring.last().0 < h {
            assert forall|j: int| 0 <= j < ring.len() implies (#[trigger] ring[j]).0 < h by {
                if j < ring.len() - 1 {
                    assert(ring[j].0 < ring[ring.len() - 1].0);
                }
            }
        } else {
            assert forall|j: int| 0 <= j < rank(ring, h) implies (#[trigger] ring[j]).0 < h by {
                assert(front[j] == ring[j]);
            }
            assert forall|j: int| rank(ring, h) <= j < ring.len() implies (#[trigger] ring[j]).0
                >= h by {
                if j < ring.len() - 1 {
                    assert(front[j] == ring[j]);
                }
            }
        }
    }
}

/// The owner of a position in an ordered ring with a node is the first node
/// at or after it, or the head.
pub proof fn lemma_owner(ring: Seq<(int, Set<i64>)>, max: int, h: int)
    requires
        in_order(ring, max),
        ring.len() > 0,
    ensures
        is_owner(ring, h, owner(ring, h)),
{
    lemma_rank(ring, max, h);
    let p = rank(ring, h);
    if p > 0 {
        assert(ring[p - 1].0 < h);
    }
    if p < ring.len() {
        assert(ring[p].0 >= h);
    }
}

/// Only one node is the owner of a position.
pub proof fn lemma_owner_unique(ring: Seq<(int, Set<i64>)>, max: int, h: int, j: int)
    requires
        in_order(ring, max),
        is_owner(ring, h, j),
    ensures
        j == owner(ring, h),
{
    lemma_rank(ring, max, h);
    let p = rank(ring, h);
    let n = ring.len() as int;
    if ring.last().0 < h {
        if p < n {
            assert(ring[n - 1].0 >= h);
        }
    } else {
        if p == n {
            assert(ring[n - 1].0 < h);
        }
        if j < p {
            assert(ring[j].0 < h);
        }
        if j > p {
            assert(ring[j - 1].0 >= h);
        }
    }
}

/// A node is the owner of its own position, at the rank of that position.
pub proof fn lemma_node_is_owner(ring: Seq<(int, Set<i64>)>, max: int, i: int)
    requires
        in_order(ring, max),
        0 <= i < ring.len(),
    ensures
        owner(ring, ring[i].0) == i,
        rank(ring, ring[i].0) == i,
{
    let h = ring[i].0;
    assert forall|j: int| 0 <= j < i implies (#[trigger] ring[j]).0 < h by {
        assert(ring[j].0 < ring[i].0);
    }
    assert forall|j: int| i <= j < ring.len() implies (#[trigger] ring[j]).0 >= h by {
        if j > i {
            assert(ring[i].0 < ring[j].0);
        }
    }
    lemma_rank_is(ring, max, h, i);
}

/// Putting the new node in at its rank and then moving to it, from its
/// successor, the resources nearer to it gives the ring that `added` describes.
pub proof fn lemma_added(ring: Seq<(int, Set<i64>)>, k: nat, max: int, h: int)
    requires
        in_order(ring, max),
        0 <= h <= max,
        !has_node(ring, h),
    ensures
        ({
            let mid = ring.insert(rank(ring, h), (h, Set::<i64>::empty()));
            let sv = if ring.len() == 0 {
                h
            } else {
                ring[owner(ring, h)].0
            };
            &&& in_order(mid, max)
            &&& has_node(mid, h)
            &&& has_node(mid, sv)
            &&& moved(mid, k, rank(mid, h), rank(mid, sv), false) == added(ring, k, h)
        }),
{
    lemma_rank(ring, max, h);
    let p = rank(ring, h);
    let n = ring.len() as int;
    let mid = ring.insert(p, (h, Set::<i64>::empty()));
    if p < n {
        assert(ring[p].0 != h);
    }
    assert forall|i: int| 0 <= i < mid.len() implies 0 <= (#[trigger] mid[i]).0 <= max by {
        if i < p {
            assert(mid[i] == ring[i]);
        } else if i > p {
            assert(mid[i] == ring[i - 1]);
        }
    }
    assert forall|i: int, j: int| 0 <= i < j < mid.len() implies (#[trigger] mid[i]).0 < (
    #[trigger] mid[j]).0 by {
        let oi = if i < p { i } else { i - 1 };
        let oj = if j < p { j } else { j - 1 };
        if i != p {
            assert(mid[i] == ring[oi]);
        }
        if j != p {
            assert(mid[j] == ring[oj]);
        }
        if i != p && j != p {
            assert(ring[oi].0 < ring[oj].0);
        }
    }
    assert(mid[p].0 == h);
    lemma_node_is_owner(mid, max, p);
    if n == 0 {
        let m = moving(mid[0].1, k, h, h, false);
        assert(m =~= Set::<i64>::empty());
        assert(mid[0].1.difference(m) =~= Set::<i64>::empty());
        assert(mid[0].1.union(m) =~= Set::<i64>::empty());
        assert(moved(mid, k, 0, 0, false) =~= added(ring, k, h));
    } else {
        let s = owner(ring, h);
        let s2 = if p < n {
            p + 1
        } else {
            0
        };
        assert(mid[s2] == ring[s]);
        lemma_node_is_owner(mid, max, s2);
        let m = nearer(ring[s].1, k, h, ring[s].0);
        assert(Set::<i64>::empty().union(m) =~= m);
        assert(moved(mid, k, p, s2, false) =~= added(ring, k, h));
    }
}

/// Where the walk from the head ends: at the owner if it is at `h`, else at the node before the owner.
pub open spec fn walk_end(ring: Seq<(int, Set<i64>)>, h: int) -> int {
    let s = owner(ring, h);
    if ring[s].0 == h {
        s
    } else {
        prev_index(ring.len() as int, s)
    }
}

/// While the test of the walk holds, the walk has not reached its end, the
/// current node is not at `h`, and the next node is not the head.
pub proof fn lemma_walk_goes_on(ring: Seq<(int, Set<i64>)>, k: nat, h: int, cur: int)
    requires
        in_order(ring, pow2(k) - 1),
        0 <= cur <= walk_end(ring, h),
        cur < ring.len(),
        ring_distance(k, ring[cur].0, h) > ring_distance(
            k,
            ring[next_index(ring.len() as int, cur)].0,
            h,
        ),
    ensures
        cur < walk_end(ring, h),
        ring[cur].0 != h,
        next_index(ring.len() as int, cur) == cur + 1,
        ring[cur + 1].0 != ring[0].0,
{
    let max = pow2(k) - 1;
    let n = ring.len() as int;
    lemma_owner(ring, max, h);
    lemma_pow2_pos(k);
    let s = owner(ring, h);
    let t = walk_end(ring, h);
    let nx = next_index(n, cur);
    if cur == t {
        if ring[s].0 == h {
        } else if s > 0 {
            assert(ring[s - 1].0 < h);
            assert(ring[s].0 >= h);
        } else {
            assert(ring[0].0 <= ring[n - 1].0) by {
                if n > 1 {
                    assert(ring[0].0 < ring[n - 1].0);
                }
            }
        }
    }
    assert(ring[0].0 < ring[cur + 1].0);
}

/// When the test of the walk fails, the walk is at its end.
pub proof fn lemma_walk_stops(ring: Seq<(int, Set<i64>)>, k: nat, h: int, cur: int)
    requires
        in_order(ring, pow2(k) - 1),
        0 <= cur <= walk_end(ring, h),
        cur < ring.len(),
        ring[cur].0 == h || ring_distance(k, ring[cur].0, h) <= ring_distance(
            k,
            ring[next_index(ring.len() as int, cur)].0,
            h,
        ),
    ensures
        cur == walk_end(ring, h),
        ring[cur].0 == h ==> cur == owner(ring, h),
        ring[cur].0 != h ==> next_index(ring.len() as int, cur) == owner(ring, h),
{
    let max = pow2(k) - 1;
    let n = ring.len() as int;
    lemma_owner(ring, max, h);
    lemma_pow2_pos(k);
    let s = owner(ring, h);
    let t = walk_end(ring, h);
    if cur < t {
        let nx = cur + 1;
        assert(ring[cur].0 < ring[nx].0);
        if s > 0 {
            if ring[s].0 == h {
                if nx < s {
                    assert(ring[nx].0 < ring[s].0);
                }
            } else {
                assert(ring[s - 1].0 < h);
                if nx < s - 1 {
                    assert(ring[nx].0 < ring[s - 1].0);
                }
            }
        } else {
            if ring[n - 1].0 < h {
                if nx < n - 1 {
                    assert(ring[nx].0 < ring[n - 1].0);
                }
            } else {
                assert(ring[0].0 >= h);
                assert(ring[0].0 <= ring[cur].0) by {
                    if cur > 0 {
                        assert(ring[0].0 < ring[cur].0);
                    }
                }
            }
        }
    }
    if ring[cur].0 == h {
        if cur > 0 {
            assert(ring[cur - 1].0 < ring[cur].0);
        }
        assert(ring[cur].0 <= ring[n - 1].0) by {
            if cur < n - 1 {
                assert(ring[cur].0 < ring[n - 1].0);
            }
        }
        lemma_owner_unique(ring, max, h, cur);
    }
}

} // verus!
