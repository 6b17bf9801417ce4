//! A consistent hash ring: nodes on a ring of `2^k` positions, each owning
//! the resources between its predecessor and itself.
//!
//! The nodes are kept in ascending order of position in one vector, so that
//! the head of the ring is the first node and the successor of the last node
//! is the first one again. A node is referred to by its index in that order.
//! Adding a node at a position that already holds one is rejected.

pub mod laws;
pub mod ring;

use std::collections::HashMap;
use vstd::prelude::*;
use vstd::arithmetic::power2::{lemma_pow2_pos, lemma_pow2_strictly_increases, pow2};
use vstd::std_specs::hash::spec_hash_map_iter;
use vstd::std_specs::iter::IteratorSpec;
use crate::hash_ring::ring::{
    added, firsts, has_node, in_order, lemma_firsts_push, lemma_owner, lemma_rank,
    lemma_sorted_lists, lists, moved, moving, next_index, owner, rank, removed,
    ring_distance, with_keys,
};

verus! {

/// Why a ring operation was refused.
#[derive(Debug, Clone, Copy, PartialEq, Eq, Structural)]
pub enum RingError {
    /// The position lies outside `0 ..= 2^k - 1`.
    OutOfRange,
    /// A node at the position exists already.
    NodeExists,
    /// No node is at the position (or the ring has no node at all).
    NodeNotFound,
}

/// A node of the ring: its position and the resources it owns, each stored under its own key.
pub struct Node {
    /// The position of the node on the ring.
    pub value: i64,
    /// The resources on the node.
    pub resource: HashMap<i64, i64>,
}

impl Node {
    /// The position of the node on the ring.
    pub fn value(&self) -> (v: &i64)
        ensures
            *v == self.value,
    {
        &self.value
    }

    /// The keys of the resources on this node.
    pub open spec fn keys(&self) -> Set<i64> {
        self.resource@.dom()
    }

    /// Every resource lies on the ring of `max + 1` positions and is stored under its own key.
    pub open spec fn holds_positions(&self, max: int) -> bool {
        forall|r: i64| #[trigger]
            self.resource@.contains_key(r) ==> 0 <= r <= max && self.resource@[r] == r
    }
}

/// A ring of `2^k` positions with its nodes.
pub struct HashRing {
    /// The nodes in ascending order of position; the first is the head.
    pub nodes: Vec<Node>,
    /// The ring has `2^k` positions.
    pub k: u32,
    /// The first position, zero.
    pub min: i64,
    /// The last position, `2^k - 1`.
    pub max: i64,
}

impl View for HashRing {
    type V = Seq<(int, Set<i64>)>;

    /// The nodes in ring order from the head: position and keys of the owned resources.
    open spec fn view(&self) -> Seq<(int, Set<i64>)> {
        Seq::new(self.nodes@.len(), |i: int| (self.nodes@[i].value as int, self.nodes@[i].keys()))
    }
}

/// The additive identity of positions, from `num_traits::Zero::zero`, which for `i64` is `0`.
#[verifier::external_body]
fn zero_position() -> (z: i64)
    ensures
        z == 0,
{
    num_traits::Zero::zero()
}

/// A position from an `i64`, by `num_traits::FromPrimitive::from_i64`, which
/// for the target type `i64` always returns the number itself.
#[verifier::external_body]
fn position_from_i64(n: i64) -> (p: Option<i64>)
    ensures
        p == Some(n),
{
    num_traits::FromPrimitive::from_i64(n)
}

/// `base` to the power `exp`, by `num_traits::PrimInt::pow`, which for `i64`
/// is the integer power of std; asked only for powers of two that fit.
#[verifier::external_body]
fn position_pow(base: i64, exp: u32) -> (p: i64)
    requires
        base == 2,
        exp <= 62,
    ensures
        p == pow2(exp as nat),
{
    num_traits::PrimInt::pow(base, exp)
}

/// The operations of a consistent hash ring, stated over its model: the
/// nodes in ring order, each with the keys of the resources it owns.
pub trait HashRingInterface {
    /// The nodes in ring order from the head: position and owned resources.
    spec fn ring(&self) -> Seq<(int, Set<i64>)>;

    /// The ring has `2^bits` positions.
    spec fn bits(&self) -> nat;

    /// The ring is in order.
    spec fn valid(&self) -> bool;

    /// Adds a node at position `hash`, which takes over from its successor
    /// the resources that lie nearer to itself. Refused when `hash` is off
    /// the ring or holds a node already; the ring is then unchanged.
    fn add_node(&mut self, hash: i64) -> (res: Result<(), RingError>)
        requires
            old(self).valid(),
        ensures
            final(self).valid(),
            final(self).bits() == old(self).bits(),
            !(0 <= hash < pow2(old(self).bits())) ==> res == Err::<(), RingError>(
                RingError::OutOfRange,
            ) && final(self).ring() == old(self).ring(),
            0 <= hash < pow2(old(self).bits()) && has_node(old(self).ring(), hash as int) ==> res
                == Err::<(), RingError>(RingError::NodeExists) && final(self).ring() == old(
                self,
            ).ring(),
            0 <= hash < pow2(old(self).bits()) && !has_node(old(self).ring(), hash as int) ==> res
                is Ok && final(self).ring() == added(
                old(self).ring(),
                old(self).bits(),
                hash as int,
            ),
    ;

    /// Removes the node at position `hash` after handing its resources to
    /// the next node. Without a node at `hash` the ring is unchanged.
    fn remove_node(&mut self, hash: i64)
        requires
            old(self).valid(),
        ensures
            final(self).valid(),
            final(self).bits() == old(self).bits(),
            !has_node(old(self).ring(), hash as int) ==> final(self).ring() == old(self).ring(),
            has_node(old(self).ring(), hash as int) ==> final(self).ring() == removed(
                old(self).ring(),
                rank(old(self).ring(), hash as int),
            ),
    ;

    /// The node that owns position `hash`: the node at `hash` if there is
    /// one, else the next node on the ring; none in a ring without nodes.
    fn lookup(&self, hash: i64) -> (node: Option<&Node>)
        requires
            self.valid(),
        ensures
            node is None <==> self.ring().len() == 0,
            node matches Some(n) ==> 0 <= owner(self.ring(), hash as int) < self.ring().len() && (
                n.value as int,
                n.keys(),
            ) == self.ring()[owner(self.ring(), hash as int)],
    ;

    /// Moves resources from the node at `src` to the node at `dest`: all of
    /// them when `is_delete`, else those that lie nearer to `dest`. Refused,
    /// with the ring unchanged, unless both positions hold a node.
    fn move_resource(&mut self, dest: i64, src: i64, is_delete: bool) -> (res: Result<
        (),
        RingError,
    >)
        requires
            old(self).valid(),
        ensures
            final(self).valid(),
            final(self).bits() == old(self).bits(),
            !(has_node(old(self).ring(), dest as int) && has_node(old(self).ring(), src as int))
                ==> res == Err::<(), RingError>(RingError::NodeNotFound) && final(self).ring()
                == old(self).ring(),
            has_node(old(self).ring(), dest as int) && has_node(old(self).ring(), src as int)
                ==> res is Ok && final(self).ring() == moved(
                old(self).ring(),
                old(self).bits(),
                rank(old(self).ring(), dest as int),
                rank(old(self).ring(), src as int),
                is_delete,
            ),
    ;

    /// Puts the resource `hash` on the node that owns its position. Refused
    /// when `hash` is off the ring or the ring has no node.
    fn add_resource(&mut self, hash: i64) -> (res: Result<(), RingError>)
        requires
            old(self).valid(),
        ensures
            final(self).valid(),
            final(self).bits() == old(self).bits(),
            !(0 <= hash < pow2(old(self).bits())) ==> res == Err::<(), RingError>(
                RingError::OutOfRange,
            ) && final(self).ring() == old(self).ring(),
            0 <= hash < pow2(old(self).bits()) && old(self).ring().len() == 0 ==> res == Err::<
                (),
                RingError,
            >(RingError::NodeNotFound) && final(self).ring() == old(self).ring(),
            0 <= hash < pow2(old(self).bits()) && old(self).ring().len() > 0 ==> res is Ok
                && final(self).ring() == old(self).ring().update(
                owner(old(self).ring(), hash as int),
                (
                    old(self).ring()[owner(old(self).ring(), hash as int)].0,
                    old(self).ring()[owner(old(self).ring(), hash as int)].1.insert(hash),
                ),
            ),
    ;
}

impl HashRingInterface for HashRing {
    open spec fn ring(&self) -> Seq<(int, Set<i64>)> {
        self@
    }

    open spec fn bits(&self) -> nat {
        self.k as nat
    }

    open spec fn valid(&self) -> bool {
        self.wf()
    }

    fn add_node(&mut self, hash: i64) -> (res: Result<(), RingError>) {
        if !self.legal_range(hash) {
            return Err(RingError::OutOfRange);
        }
        let new_node = Node { value: hash, resource: HashMap::new() };
        let ghost before = self@;
        let ghost k = self.k as nat;
        let ghost max = self.max as int;
        let next_node_value: i64;
        proof {
            lemma_pow2_pos(k);
            lemma_rank(before, max, hash as int);
        }
        if let Some(found) = self.locate(hash) {
            proof {
                lemma_owner(before, max, hash as int);
            }
            next_node_value = self.get_node_value(&Some(found));
            if next_node_value == hash {
                proof {
                    assert(before[found as int].0 == hash);
                }
                return Err(RingError::NodeExists);
            }
            proof {
                assert(!has_node(before, hash as int)) by {
                    if has_node(before, hash as int) {
                        let i = choose|i: int| 0 <= i < before.len() && (#[trigger] before[i]).0 == hash;
                        ring::lemma_node_is_owner(before, max, i);
                    }
                }
            }
            self.add_node_prev(found, new_node);
        } else {
            proof {
                assert(before.len() == 0);
                assert(!has_node(before, hash as int));
            }
            self.nodes.push(new_node);
            next_node_value = hash;
            proof {
                assert(self@ =~= seq![(hash as int, Set::<i64>::empty())]);
                assert(self.nodes@[0].holds_positions(max));
            }
        }
        let ghost mid = self@;
        proof {
            assert(mid =~= before.insert(rank(before, hash as int), (hash as int, Set::<i64>::empty())));
        }
        let _moved = self.move_resource(hash, next_node_value, false);
        proof {
            ring::lemma_added(before, k, max, hash as int);
        }
        Ok(())
    }

    fn remove_node(&mut self, hash: i64) {
        let node_ref = self.locate(hash);
        let node_value = self.get_node_value(&node_ref);
        let next_value = self.get_next_value(&node_ref);
        let ghost before = self@;
        let ghost max = self.max as int;
        proof {
            lemma_rank(before, max, hash as int);
            if before.len() > 0 {
                lemma_owner(before, max, hash as int);
            }
            if has_node(before, hash as int) {
                let i = choose|i: int| 0 <= i < before.len() && (#[trigger] before[i]).0 == hash;
                ring::lemma_node_is_owner(before, max, i);
            }
        }
        if node_ref.is_none() || node_value != hash {
            return ;
        }
        let idx = node_ref.unwrap();
        proof {
            let nx = next_index(before.len() as int, idx as int);
            ring::lemma_node_is_owner(before, max, idx as int);
            ring::lemma_node_is_owner(before, max, nx);
            assert(before[idx as int].0 == node_value);
            assert(before[nx].0 == next_value);
            assert(has_node(before, node_value as int));
            assert(has_node(before, next_value as int));
        }
        let _moved = self.move_resource(next_value, node_value, true);
        let ghost mid = self@;
        proof {
            assert(mid.len() == before.len());
        }
        let _gone = self.nodes.remove(idx);
        proof {
            assert(self@ =~= mid.remove(idx as int));
            assert(self@ =~= removed(before, idx as int));
        }
    }

    fn lookup(&self, hash: i64) -> (node: Option<&Node>) {
        match self.locate(hash) {
            Some(i) => Some(&self.nodes[i]),
            None => None,
        }
    }

    fn move_resource(&mut self, dest: i64, src: i64, is_delete: bool) -> (res: Result<
        (),
        RingError,
    >) {
        let ghost before = self@;
        let ghost max = self.max as int;
        let ghost k = self.k as nat;
        proof {
            lemma_pow2_pos(k);
            lemma_rank(before, max, dest as int);
            lemma_rank(before, max, src as int);
        }
        let dest_node = self.locate(dest);
        let src_node = self.locate(src);
        if dest_node.is_none() || src_node.is_none() {
            return Err(RingError::NodeNotFound);
        }
        let di = dest_node.unwrap();
        let si = src_node.unwrap();
        proof {
            lemma_owner(before, max, dest as int);
            lemma_owner(before, max, src as int);
            if has_node(before, dest as int) {
                let i = choose|i: int| 0 <= i < before.len() && (#[trigger] before[i]).0 == dest;
                ring::lemma_node_is_owner(before, max, i);
            }
            if has_node(before, src as int) {
                let i = choose|i: int| 0 <= i < before.len() && (#[trigger] before[i]).0 == src;
                ring::lemma_node_is_owner(before, max, i);
            }
        }
        if *self.nodes[si].value() != src || *self.nodes[di].value() != dest {
            return Err(RingError::NodeNotFound);
        }
        proof {
            assert(before[si as int].0 == src);
            assert(before[di as int].0 == dest);
            ring::lemma_node_is_owner(before, max, si as int);
            ring::lemma_node_is_owner(before, max, di as int);
            assert(rank(before, dest as int) == di);
            assert(rank(before, src as int) == si);
        }
        let resources = self.leaving(si, dest, is_delete);
        let ghost going = firsts(resources@);
        let ghost nodes0 = self.nodes@;
        let ghost src_map = self.nodes@[si as int].resource@;
        proof {
            assert(self.nodes@[si as int].holds_positions(max));
            assert(self.nodes@[di as int].holds_positions(max));
            assert(firsts(resources@.take(0)) =~= Set::<i64>::empty());
            assert(src_map.remove_keys(Set::<i64>::empty()) =~= src_map);
        }
        let mut t: usize = 0;
        while t < resources.len()
            invariant
                0 <= t <= resources@.len(),
                si < self.nodes@.len(),
                self.nodes@.len() == nodes0.len(),
                self.k == k,
                self.min == 0,
                self.max == max,
                forall|j: int|
                    0 <= j < nodes0.len() && j != si ==> #[trigger] self.nodes@[j] == nodes0[j],
                self.nodes@[si as int].value == nodes0[si as int].value,
                self.nodes@[si as int].resource@ == src_map.remove_keys(
                    firsts(resources@.take(t as int)),
                ),
            decreases resources@.len() - t,
        {
            broadcast use vstd::std_specs::hash::group_hash_axioms;

            let (key, _) = resources[t];
            let ghost cur = self.nodes@[si as int].resource@;
            self.nodes[si].resource.remove(&key);
            proof {
                assert(resources@.take(t + 1) =~= resources@.take(t as int).push(resources@[t as int]));
                lemma_firsts_push(resources@.take(t as int), resources@[t as int]);
                assert(self.nodes@[si as int].resource@ == cur.remove(key));
                assert(cur.remove(key) =~= src_map.remove_keys(
                    firsts(resources@.take(t + 1)),
                ));
            }
            t += 1;
        }
        let ghost nodes1 = self.nodes@;
        let ghost dst_map = self.nodes@[di as int].resource@;
        proof {
            assert(resources@.take(t as int) =~= resources@);
            assert(firsts(resources@.take(0)) =~= Set::<i64>::empty());
            assert(with_keys(dst_map, Set::<i64>::empty()) =~= dst_map);
        }
        let mut u: usize = 0;
        while u < resources.len()
            invariant
                0 <= u <= resources@.len(),
                di < self.nodes@.len(),
                self.nodes@.len() == nodes1.len(),
                self.k == k,
                self.min == 0,
                self.max == max,
                forall|j: int|
                    0 <= j < nodes1.len() && j != di ==> #[trigger] self.nodes@[j] == nodes1[j],
                self.nodes@[di as int].value == nodes1[di as int].value,
                self.nodes@[di as int].resource@ == with_keys(
                    dst_map,
                    firsts(resources@.take(u as int)),
                ),
                forall|t: int|
                    0 <= t < resources@.len() ==> (#[trigger] resources@[t]).1 == resources@[t].0,
            decreases resources@.len() - u,
        {
            broadcast use vstd::std_specs::hash::group_hash_axioms;

            let (key, value) = resources[u];
            let ghost cur = self.nodes@[di as int].resource@;
            self.nodes[di].resource.insert(key, value);
            proof {
                assert(resources@.take(u + 1) =~= resources@.take(u as int).push(resources@[u as int]));
                lemma_firsts_push(resources@.take(u as int), resources@[u as int]);
                assert(self.nodes@[di as int].resource@ == cur.insert(key, value));
                assert(cur.insert(key, value) =~= with_keys(
                    dst_map,
                    firsts(resources@.take(u + 1)),
                ));
            }
            u += 1;
        }
        proof {
            assert(resources@.take(u as int) =~= resources@);
            let after = moved(before, k, di as int, si as int, is_delete);
            assert(going == moving(before[si as int].1, k, dest as int, src as int, is_delete));
            assert forall|j: int| 0 <= j < before.len() implies self@[j] == after[j] by {
                if j == di as int {
                    assert(self.nodes@[j].resource@.dom() =~= before[di as int].1.union(going));
                } else if j == si as int {
                    assert(self.nodes@[j].resource@.dom() =~= before[si as int].1.difference(going));
                } else {
                    assert(self.nodes@[j] == nodes1[j]);
                    assert(nodes1[j] == nodes0[j]);
                }
            }
            assert(self@ =~= after);
            assert forall|i: int| 0 <= i < self.nodes@.len() implies (
            #[trigger] self.nodes@[i]).holds_positions(max) by {
                if i != di as int && i != si as int {
                    assert(self.nodes@[i] == nodes0[i]);
                    assert(nodes0[i].holds_positions(max));
                }
            }
            assert(in_order(self@, max)) by {
                assert forall|i: int| 0 <= i < self@.len() implies self@[i].0 == before[i].0 by {}
            }
        }
        Ok(())
    }

    fn add_resource(&mut self, hash: i64) -> (res: Result<(), RingError>) {
        broadcast use vstd::std_specs::hash::group_hash_axioms;

        if !self.legal_range(hash) {
            return Err(RingError::OutOfRange);
        }
        let ghost before = self@;
        let ghost nodes0 = self.nodes@;
        let ghost max = self.max as int;
        let node_ref = self.locate(hash);
        if let Some(node) = node_ref {
            proof {
                assert(self.nodes@[node as int].holds_positions(max));
            }
            self.nodes[node].resource.insert(hash, hash);
            proof {
                let s = node as int;
                assert(self@ =~= before.update(s, (before[s].0, before[s].1.insert(hash))));
                assert forall|i: int| 0 <= i < self.nodes@.len() implies (
                #[trigger] self.nodes@[i]).holds_positions(max) by {
                    if i != s {
                        assert(self.nodes@[i] == nodes0[i]);
                        assert(nodes0[i].holds_positions(max));
                    }
                }
                assert(in_order(self@, max)) by {
                    assert forall|i: int| 0 <= i < self@.len() implies self@[i].0 == before[i].0 by {}
                }
            }
            Ok(())
        } else {
            Err(RingError::NodeNotFound)
        }
    }
}

/// Sorts the pairs by their first component, with `sort_by_key` of std's
/// slices: afterwards the vector holds the same pairs, in ascending order of
/// the first component.
#[verifier::external_body]
fn sort_pairs(pairs: &mut Vec<(i64, i64)>)
    ensures
        final(pairs)@.to_multiset() == old(pairs)@.to_multiset(),
        forall|i: int, j: int|
            0 <= i <= j < final(pairs)@.len() ==> (#[trigger] final(pairs)@[i]).0 <= (
            #[trigger] final(pairs)@[j]).0,
{
    pairs.sort_by_key(|p| p.0);
}

impl HashRing {
    /// The ring is in order: positions strictly ascend within `0 ..= max`, and
    /// every resource is a position stored under its own key.
    pub open spec fn wf(&self) -> bool {
        &&& self.k <= 62
        &&& self.min == 0
        &&& self.max == pow2(self.k as nat) - 1
        &&& in_order(self@, self.max as int)
        &&& forall|i: int| 0 <= i < self.nodes@.len() ==> (#[trigger] self.nodes@[i]).holds_positions(self.max as int)
    }

    /// An empty ring of `2^k` positions.
    pub fn new(k: u32) -> (ring: HashRing)
        requires
            k <= 62,
        ensures
            ring.wf(),
            ring.k == k,
            ring@ == Seq::<(int, Set<i64>)>::empty(),
    {
        proof {
            lemma_pow2_pos(k as nat);
            vstd::arithmetic::power2::lemma2_to64();
            vstd::arithmetic::power2::lemma2_to64_rest();
            if k < 62 {
                lemma_pow2_strictly_increases(k as nat, 62);
            }
        }
        let size = position_pow(2, k);
        let ring = HashRing {
            nodes: Vec::new(),
            k,
            min: zero_position(),
            max: position_from_i64(size - 1).unwrap(),
        };
        proof {
            assert(ring@ =~= Seq::<(int, Set<i64>)>::empty());
        }
        ring
    }

    /// Whether `hash` is a position of the ring.
    pub fn legal_range(&self, hash: i64) -> (legal: bool)
        ensures
            legal == (self.min <= hash <= self.max),
    {
        self.min <= hash && hash <= self.max
    }

    /// The number of forward steps on the ring from `a` to `b`.
    pub fn distance(&self, a: i64, b: i64) -> (d: i64)
        requires
            self.k <= 62,
            i64::MIN <= b - a <= i64::MAX,
        ensures
            d == ring_distance(self.k as nat, a as int, b as int),
    {
        proof {
            lemma_pow2_pos(self.k as nat);
            vstd::arithmetic::power2::lemma2_to64();
            vstd::arithmetic::power2::lemma2_to64_rest();
            if self.k < 62 {
                lemma_pow2_strictly_increases(self.k as nat, 62);
            }
        }
        if a == b {
            zero_position()
        } else if a < b {
            b - a
        } else {
            let x: i64 = position_from_i64(2).unwrap();
            position_pow(x, self.k) + (b - a)
        }
    }

    /// The head of the ring: the node at the least position.
    pub fn head(&self) -> (h: Option<usize>)
        ensures
            h == (if self.nodes@.len() > 0 { Some(0usize) } else { None }),
    {
        if self.nodes.len() > 0 {
            Some(0)
        } else {
            None
        }
    }

    /// The position of the head, zero for a ring without nodes.
    pub fn get_head_value(&self) -> (v: i64)
        ensures
            v == (if self.nodes@.len() > 0 { self.nodes@[0].value } else { 0 }),
    {
        self.get_node_value(&self.head())
    }

    /// The position of the node referred to, zero for no node.
    pub fn get_node_value(&self, node_ref: &Option<usize>) -> (v: i64)
        requires
            node_ref matches Some(i) ==> i < self.nodes@.len(),
        ensures
            node_ref is None ==> v == 0,
            node_ref matches Some(i) ==> v == self.nodes@[i as int].value,
    {
        if let Some(i) = node_ref {
            return *self.nodes[*i].value();
        }
        zero_position()
    }

    /// The position of the node after the node referred to, zero for no node.
    pub fn get_next_value(&self, node_ref: &Option<usize>) -> (v: i64)
        requires
            node_ref matches Some(i) ==> i < self.nodes@.len(),
        ensures
            node_ref is None ==> v == 0,
            node_ref matches Some(i) ==> v == self.nodes@[ring::next_index(
                self.nodes@.len() as int,
                i as int,
            )].value,
    {
        if let Some(next) = self.get_next_node_ref(node_ref) {
            return *self.nodes[next].value();
        }
        zero_position()
    }

    /// The node after the node referred to; after the last node comes the head.
    pub fn get_next_node_ref(&self, node_ref: &Option<usize>) -> (next: Option<usize>)
        requires
            node_ref matches Some(i) ==> i < self.nodes@.len(),
        ensures
            node_ref is None ==> next is None,
            node_ref matches Some(i) ==> next is Some && next->0 as int == ring::next_index(
                self.nodes@.len() as int,
                i as int,
            ),
            next matches Some(j) ==> j < self.nodes@.len(),
    {
        if let Some(i) = node_ref {
            if *i == self.nodes.len() - 1 {
                return Some(0);
            }
            return Some(*i + 1);
        }
        None
    }

    /// The node before the node referred to; before the head comes the last node.
    pub fn get_prev_node_ref(&self, node_ref: &Option<usize>) -> (prev: Option<usize>)
        requires
            node_ref matches Some(i) ==> i < self.nodes@.len(),
        ensures
            node_ref is None ==> prev is None,
            node_ref matches Some(i) ==> prev is Some && prev->0 as int == ring::prev_index(
                self.nodes@.len() as int,
                i as int,
            ),
            prev matches Some(j) ==> j < self.nodes@.len(),
    {
        if let Some(i) = node_ref {
            if *i == 0 {
                return Some(self.nodes.len() - 1);
            }
            return Some(*i - 1);
        }
        None
    }

    /// The positions of the nodes in ring order from the head.
    pub fn nodes(&self) -> (positions: Vec<i64>)
        ensures
            positions@.len() == self@.len(),
            forall|i: int| 0 <= i < positions@.len() ==> positions@[i] == self@[i].0,
    {
        let mut positions: Vec<i64> = Vec::new();
        let mut i: usize = 0;
        while i < self.nodes.len()
            invariant
                0 <= i <= self.nodes@.len(),
                positions@.len() == i,
                forall|j: int| 0 <= j < i ==> positions@[j] == self@[j].0,
            decreases self.nodes@.len() - i,
        {
            positions.push(*self.nodes[i].value());
            i += 1;
        }
        positions
    }

    /// For each node, under its position, the resources it owns as pairs of
    /// key and value in ascending order.
    pub fn resources(&self) -> (listing: HashMap<i64, Vec<(i64, i64)>>)
        requires
            self.wf(),
        ensures
            forall|v: i64| #[trigger] listing@.contains_key(v) <==> has_node(self@, v as int),
            forall|i: int|
                0 <= i < self@.len() ==> listing@.contains_key((#[trigger] self.nodes@[i]).value)
                    && lists(listing@[self.nodes@[i].value]@, self@[i].1),
    {
        broadcast use vstd::std_specs::hash::group_hash_axioms;

        let mut listing: HashMap<i64, Vec<(i64, i64)>> = HashMap::new();
        let ghost max = self.max as int;
        let mut i: usize = 0;
        while i < self.nodes.len()
            invariant
                self.wf(),
                max == self.max,
                0 <= i <= self.nodes@.len(),
                forall|v: i64| #[trigger]
                    listing@.contains_key(v) <==> has_node(self@.take(i as int), v as int),
                forall|j: int|
                    0 <= j < i ==> listing@.contains_key((#[trigger] self.nodes@[j]).value)
                        && lists(listing@[self.nodes@[j].value]@, self@[j].1),
            decreases self.nodes@.len() - i,
        {
            let node = &self.nodes[i];
            let mut resource: Vec<(i64, i64)> = Vec::new();
            let ghost map = node.resource@;
            let ghost all = spec_hash_map_iter(&node.resource).remaining();
            proof {
                assert(self.nodes@[i as int].holds_positions(max));
            }
            for pair in it: node.resource.iter()
                invariant
                    it.seq() == all,
                    all == spec_hash_map_iter(&node.resource).remaining(),
                    all.no_duplicates(),
                    map == node.resource@,
                    forall|r: i64| #[trigger] map.contains_key(r) ==> map[r] == r,
                    forall|t: int|
                        0 <= t < all.len() ==> map.contains_key(*(#[trigger] all[t]).0) && map[*all[t].0]
                            == *all[t].1,
                    resource@ == all.unref().take(it.index()),
            {
                let (key, value) = pair;
                resource.push((*key, *value));
                proof {
                    assert(all.unref().take(it.index() + 1) =~= all.unref().take(it.index()).push(
                        (*key, *value),
                    ));
                }
            }
            let ghost unsorted = resource@;
            proof {
                assert(unsorted =~= all.unref());
                assert forall|a: int, b: int|
                    0 <= a < unsorted.len() && 0 <= b < unsorted.len() && a
                        != b implies unsorted[a] != unsorted[b] by {
                    assert(all[a] != all[b]);
                    assert(map.contains_key(*all[a].0));
                    assert(map.contains_key(*all[b].0));
                }
                assert forall|t: int| 0 <= t < unsorted.len() implies (#[trigger] unsorted[t]).1
                    == unsorted[t].0 by {
                    assert(map.contains_key(*all[t].0));
                }
                assert forall|r: i64| firsts(unsorted).contains(r) <==> map.dom().contains(r) by {
                    if firsts(unsorted).contains(r) {
                        let t = choose|t: int|
                            0 <= t < unsorted.len() && (#[trigger] unsorted[t]).0 == r;
                        assert(map.contains_key(*all[t].0));
                    }
                    if map.contains_key(r) {
                        assert(all.contains((&r, &map[r])));
                        let t = choose|t: int| 0 <= t < all.len() && all[t] == (&r, &map[r]);
                        assert(unsorted[t].0 == r);
                    }
                }
                assert(firsts(unsorted) =~= map.dom());
            }
            sort_pairs(&mut resource);
            proof {
                lemma_sorted_lists(unsorted, resource@);
            }
            let ghost prior = listing@;
            listing.insert(*node.value(), resource);
            proof {
                let v = self.nodes@[i as int].value;
                assert(self@[i as int].0 == v);
                assert forall|w: i64| #[trigger]
                    listing@.contains_key(w) <==> has_node(self@.take(i + 1), w as int) by {
                    ring::lemma_has_node_take(self@, i as int, w as int);
                }
                let sorted = resource@;
                assert(listing@ == prior.insert(v, resource));
                assert(lists(sorted, self@[i as int].1));
                assert forall|j: int| 0 <= j < i + 1 implies listing@.contains_key(
                    (#[trigger] self.nodes@[j]).value,
                ) && lists(listing@[self.nodes@[j].value]@, self@[j].1) by {
                    if j < i {
                        assert(self@[j].0 < self@[i as int].0);
                        assert(self.nodes@[j].value != v);
                        assert(prior.contains_key(self.nodes@[j].value));
                        assert(lists(prior[self.nodes@[j].value]@, self@[j].1));
                        assert(listing@[self.nodes@[j].value] == prior[self.nodes@[j].value]);
                    } else {
                        assert(listing@[v] == resource);
                    }
                }
            }
            i += 1;
        }
        proof {
            assert(self@.take(i as int) =~= self@);
        }
        listing
    }

    /// Puts `new_node` into the ring just before `target`, the node that
    /// owns its position: at the end of the order when it lies behind all
    /// nodes, where the next node is the head.
    pub fn add_node_prev(&mut self, target: usize, new_node: Node)
        requires
            old(self).wf(),
            target < old(self).nodes@.len(),
            target == owner(old(self)@, new_node.value as int),
            !has_node(old(self)@, new_node.value as int),
            0 <= new_node.value <= old(self).max,
            new_node.holds_positions(old(self).max as int),
        ensures
            final(self).wf(),
            final(self).k == old(self).k,
            final(self).max == old(self).max,
            final(self)@ == old(self)@.insert(
                rank(old(self)@, new_node.value as int),
                (new_node.value as int, new_node.keys()),
            ),
    {
        let ghost before = self@;
        let ghost nodes0 = self.nodes@;
        let ghost max = self.max as int;
        let ghost h = new_node.value as int;
        let ghost p = rank(before, h);
        proof {
            lemma_rank(before, max, h);
            lemma_owner(before, max, h);
            if p < before.len() {
                assert(before[p].0 != h);
            }
        }
        if new_node.value < *self.nodes[target].value() {
            self.nodes.insert(target, new_node);
        } else {
            self.nodes.push(new_node);
        }
        proof {
            let after = before.insert(p, (h, new_node.keys()));
            assert(self.nodes@ =~= nodes0.insert(p, new_node));
            assert(self@ =~= after);
            assert forall|i: int| 0 <= i < self.nodes@.len() implies (
            #[trigger] self.nodes@[i]).holds_positions(max) by {
                if i < p {
                    assert(self.nodes@[i] == nodes0[i]);
                    assert(nodes0[i].holds_positions(max));
                } else if i > p {
                    assert(self.nodes@[i] == nodes0[i - 1]);
                    assert(nodes0[i - 1].holds_positions(max));
                }
            }
            assert(in_order(after, max)) by {
                assert forall|i: int| 0 <= i < after.len() implies 0 <= (#[trigger] after[i]).0
                    <= max by {
                    if i < p {
                        assert(after[i] == before[i]);
                    } else if i > p {
                        assert(after[i] == before[i - 1]);
                    }
                }
                assert forall|i: int, j: int| 0 <= i < j < after.len() implies (
                #[trigger] after[i]).0 < (#[trigger] after[j]).0 by {
                    let oi = if i < p { i } else { i - 1 };
                    let oj = if j < p { j } else { j - 1 };
                    if i != p {
                        assert(after[i] == before[oi]);
                    }
                    if j != p {
                        assert(after[j] == before[oj]);
                    }
                    if i != p && j != p {
                        assert(before[oi].0 < before[oj].0);
                    }
                }
            }
        }
    }

    /// Collects the resources of node `si` that a move to position `dest`
    /// takes along, as pairs of key and value.
    fn leaving(&self, si: usize, dest: i64, is_delete: bool) -> (resources: Vec<(i64, i64)>)
        requires
            self.wf(),
            si < self.nodes@.len(),
            0 <= dest <= self.max,
        ensures
            firsts(resources@) == moving(
                self@[si as int].1,
                self.k as nat,
                dest as int,
                self@[si as int].0,
                is_delete,
            ),
            forall|t: int| 0 <= t < resources@.len() ==> (#[trigger] resources@[t]).1 == resources@[t].0,
    {
        broadcast use vstd::std_specs::hash::group_hash_axioms;

        let mut resources: Vec<(i64, i64)> = Vec::new();
        let src = *self.nodes[si].value();
        let ghost map = self.nodes@[si as int].resource@;
        let ghost all = spec_hash_map_iter(&self.nodes@[si as int].resource).remaining();
        let ghost k = self.k as nat;
        proof {
            lemma_pow2_pos(k);
            assert(self.nodes@[si as int].holds_positions(self.max as int));
            assert(0 <= self@[si as int].0 <= self.max);
            assert(firsts(resources@) =~= Set::<i64>::empty());
        }
        let node = &self.nodes[si];
        for pair in it: node.resource.iter()
            invariant
                *node == self.nodes@[si as int],
                self.wf(),
                si < self.nodes@.len(),
                0 <= dest <= self.max,
                0 <= src <= self.max,
                src == self@[si as int].0,
                k == self.k,
                map == self.nodes@[si as int].resource@,
                it.seq() == all,
                all == spec_hash_map_iter(&self.nodes@[si as int].resource).remaining(),
                forall|i: int|
                    0 <= i < all.len() ==> map.contains_key(*(#[trigger] all[i]).0) && map[*all[i].0]
                        == *all[i].1,
                forall|r: i64|
                    #[trigger] map.contains_key(r) ==> 0 <= r <= self.max && map[r] == r,
                forall|t: int|
                    0 <= t < resources@.len() ==> (#[trigger] resources@[t]).1 == resources@[t].0,
                firsts(resources@) == Set::new(
                    |r: i64|
                        exists|i: int|
                            0 <= i < it.index() && *(#[trigger] all[i]).0 == r && (is_delete
                                || ring_distance(k, r as int, dest as int) < ring_distance(
                                k,
                                r as int,
                                src as int,
                            )),
                ),
        {
            let (key, value) = pair;
            let ghost before = resources@;
            let ghost idx = it.index();
            proof {
                assert(all[idx] == pair);
                assert(map.contains_key(*all[idx].0));
            }
            if self.distance(*key, dest) < self.distance(*key, src) || is_delete {
                resources.push((*key, *value));
                proof {
                    lemma_firsts_push(before, (*key, *value));
                }
            }
            proof {
                let target = Set::new(
                    |r: i64|
                        exists|i: int|
                            0 <= i < idx + 1 && *(#[trigger] all[i]).0 == r && (is_delete
                                || ring_distance(k, r as int, dest as int) < ring_distance(
                                k,
                                r as int,
                                src as int,
                            )),
                );
                assert forall|r: i64| firsts(resources@).contains(r) <==> target.contains(r) by {
                    if firsts(before).contains(r) {
                        let i = choose|i: int|
                            0 <= i < idx && *(#[trigger] all[i]).0 == r && (is_delete
                                || ring_distance(k, r as int, dest as int) < ring_distance(
                                k,
                                r as int,
                                src as int,
                            ));
                        assert(*all[i].0 == r);
                    }
                    if target.contains(r) {
                        let i = choose|i: int|
                            0 <= i < idx + 1 && *(#[trigger] all[i]).0 == r && (is_delete
                                || ring_distance(k, r as int, dest as int) < ring_distance(
                                k,
                                r as int,
                                src as int,
                            ));
                        if i < idx {
                            assert(*all[i].0 == r);
                            assert(firsts(before).contains(r));
                        }
                    }
                    if r == *key {
                        assert(*all[idx].0 == r);
                    }
                }
                assert(firsts(resources@) =~= target);
            }
        }
        proof {
            let goal = moving(self@[si as int].1, k, dest as int, src as int, is_delete);
            assert forall|r: i64| firsts(resources@).contains(r) <==> goal.contains(r) by {
                if firsts(resources@).contains(r) {
                    let i = choose|i: int|
                        0 <= i < all.len() && *(#[trigger] all[i]).0 == r && (is_delete
                            || ring_distance(k, r as int, dest as int) < ring_distance(
                            k,
                            r as int,
                            src as int,
                        ));
                    assert(map.contains_key(*all[i].0));
                }
                if goal.contains(r) {
                    assert(map.contains_key(r));
                    assert(all.contains((&r, &map[r])));
                    let i = choose|i: int| 0 <= i < all.len() && all[i] == (&r, &map[r]);
                    assert(*all[i].0 == r);
                }
            }
            assert(firsts(resources@) =~= goal);
        }
        resources
    }

    /// The node that owns position `hash`: the node at `hash` if there is
    /// one, else the next node on the ring. Walks from the head while the
    /// next node is nearer to `hash`, going forward, than the current one.
    /// A position off the ring is owned by the head.
    pub fn locate(&self, hash: i64) -> (found: Option<usize>)
        requires
            self.wf(),
        ensures
            found is None <==> self@.len() == 0,
            found matches Some(i) ==> i < self.nodes@.len() && i as int == owner(
                self@,
                hash as int,
            ),
    {
        if !self.legal_range(hash) {
            // off the ring every node lies on the same side: the walk would end at the head
            proof {
                lemma_rank(self@, self.max as int, hash as int);
                if self@.len() > 0 {
                    assert(0 <= self@[0].0 <= self.max);
                }
            }
            return self.head();
        }
        let mut current = self.head();
        let mut current_value: i64 = self.get_node_value(&current);
        let mut next_node_ref = self.get_next_node_ref(&current);
        let mut next_node_value = self.get_node_value(&next_node_ref);
        let head_value: i64 = self.get_head_value();
        let ghost n = self.nodes@.len() as int;
        let ghost s = owner(self@, hash as int);
        let ghost t = if n == 0 {
            0
        } else if self@[s].0 == hash {
            s
        } else {
            ring::prev_index(n, s)
        };
        proof {
            lemma_pow2_pos(self.k as nat);
            if n > 0 {
                lemma_owner(self@, self.max as int, hash as int);
            }
        }
        while self.distance(current_value, hash) > self.distance(next_node_value, hash)
            invariant
                self.wf(),
                0 <= hash <= self.max,
                n == self.nodes@.len(),
                n == 0 ==> current is None && next_node_ref is None && current_value == 0
                    && next_node_value == 0,
                n > 0 ==> current is Some && next_node_ref is Some && current->0 <= t < n
                    && next_node_ref->0 == ring::next_index(n, current->0 as int)
                    && current_value == self@[current->0 as int].0 && next_node_value
                    == self@[next_node_ref->0 as int].0,
                n > 0 ==> head_value == self@[0].0,
                n > 0 ==> s == owner(self@, hash as int) && 0 <= s < n,
                n > 0 ==> t == (if self@[s].0 == hash {
                    s
                } else {
                    ring::prev_index(n, s)
                }),
                n > 0 ==> ring::is_owner(self@, hash as int, s),
            ensures
                n > 0 ==> current_value == hash || ring_distance(
                    self.k as nat,
                    current_value as int,
                    hash as int,
                ) <= ring_distance(self.k as nat, next_node_value as int, hash as int),
            decreases n - (if n > 0 { current->0 as int } else { 0 }),
        {
            proof {
                ring::lemma_walk_goes_on(
                    self@,
                    self.k as nat,
                    hash as int,
                    current->0 as int,
                );
            }
            if current_value == hash {
                break ;
            }
            if next_node_value == head_value {
                break ;
            }
            current = next_node_ref;
            current_value = self.get_node_value(&current);
            next_node_ref = self.get_next_node_ref(&current);
            next_node_value = self.get_node_value(&next_node_ref);
        }
        proof {
            if n > 0 {
                ring::lemma_walk_stops(self@, self.k as nat, hash as int, current->0 as int);
            }
        }
        if current_value == hash {
            return current;
        }
        next_node_ref
    }
}

} // verus!
