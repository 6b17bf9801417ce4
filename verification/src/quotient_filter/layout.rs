//! The mathematical model of a quotient filter's table: which home bucket the
//! remainder in each slot belongs to, and what the metadata bits must say.

use vstd::prelude::*;
use vstd::multiset::Multiset;
use vstd::arithmetic::div_mod::{
    lemma_fundamental_div_mod_converse_div, lemma_fundamental_div_mod_converse_mod,
};
use vstd::arithmetic::power2::{
    lemma2_to64, lemma2_to64_rest, lemma_pow2_adds, lemma_pow2_pos,
    lemma_pow2_strictly_increases, pow2,
};
use crate::quotient_filter::slot::Slot;

verus! {

/// The slot after `p` in a circular table of `n` slots.
pub open spec fn next_slot(n: int, p: int) -> int {
    if p + 1 >= n { 0 } else { p + 1 }
}

/// The slot before `p` in a circular table of `n` slots.
pub open spec fn prev_slot(n: int, p: int) -> int {
    if p <= 0 { n - 1 } else { p - 1 }
}

/// The number of forward steps from slot `a` to slot `b`.
pub open spec fn fwd(n: int, a: int, b: int) -> int {
    if b >= a { b - a } else { b - a + n }
}

/// The slot `k` steps after slot `a`, for `0 <= k < n`.
pub open spec fn step(n: int, a: int, k: int) -> int {
    if a + k >= n { a + k - n } else { a + k }
}

/// The slot `k` steps before slot `a`, for `0 <= k < n`.
pub open spec fn back(n: int, a: int, k: int) -> int {
    if a - k < 0 { a - k + n } else { a - k }
}

/// The fingerprint of a remainder `rem` whose home bucket is `home`.
pub open spec fn fingerprint(home: int, rem: u64, r: nat) -> u64 {
    (home * pow2(r) + rem) as u64
}

/// Some slot stores a remainder whose home bucket is `j`.
pub open spec fn has_run(homes: Seq<int>, j: int) -> bool {
    exists|t: int| 0 <= t < homes.len() && #[trigger] homes[t] == j
}

/// Some slot stores the remainder `rem` for home bucket `j`.
pub open spec fn holds(slots: Seq<Slot>, homes: Seq<int>, j: int, rem: u64) -> bool {
    exists|t: int| 0 <= t < homes.len() && #[trigger] homes[t] == j && slots[t].remainder == rem
}

/// Slot `p` holds what the model says: an empty slot is all zero; a stored
/// remainder is shifted iff it is away from home, continued iff it follows a
/// remainder of its own run, never precedes its predecessor's home, and is not
/// below its predecessor in its run. The occupied bit of bucket `p` is set iff
/// the bucket has a run (or is `pending`, the bucket being inserted into).
pub open spec fn slot_ok(slots: Seq<Slot>, homes: Seq<int>, r: nat, pending: int, p: int) -> bool {
    let n = slots.len() as int;
    let s = slots[p];
    let h = homes[p];
    let pp = prev_slot(n, p);
    &&& -1 <= h < n
    &&& s.occupied == (pending == p || has_run(homes, p))
    &&& h == -1 ==> s.remainder == 0 && !s.continued && !s.shifted
    &&& h != -1 ==> {
        &&& s.remainder < pow2(r)
        &&& s.shifted == (h != p)
        &&& s.continued == (h != p && homes[pp] == h)
        &&& h != p ==> homes[pp] != -1 && fwd(n, homes[pp], pp) + 1 >= fwd(n, h, p)
        &&& s.continued ==> slots[pp].remainder <= s.remainder
    }
}

/// Every slot of a table of at least two slots holds what the model says.
pub open spec fn table_ok(slots: Seq<Slot>, homes: Seq<int>, r: nat, pending: int) -> bool {
    &&& slots.len() == homes.len()
    &&& slots.len() >= 2
    &&& forall|p: int| 0 <= p < slots.len() ==> #[trigger] slot_ok(slots, homes, r, pending, p)
}

/// No remainder was pushed across slot `a`: it is empty or holds a remainder at home.
pub open spec fn is_barrier(homes: Seq<int>, a: int) -> bool {
    homes[a] == -1 || homes[a] == a
}

/// Where the home bucket of the remainder `k` steps after slot `b` lies, in
/// steps after `b`; negative when the home precedes `b`.
pub open spec fn rel(homes: Seq<int>, b: int, k: int) -> int {
    let n = homes.len() as int;
    let s = step(n, b, k);
    k - fwd(n, homes[s], s)
}

/// Slot `x` is where the run of bucket `h` starts, or would start, in the
/// cluster that begins at slot `c`: every slot from `c` up to `x` stores a
/// remainder of an earlier bucket, and `x` is empty or stores a remainder of
/// `h` or of a later bucket; of `h` itself when `h` has a run.
pub open spec fn run_head_at(homes: Seq<int>, c: int, h: int, x: int) -> bool {
    let n = homes.len() as int;
    let d = fwd(n, c, h);
    let ro = fwd(n, c, x);
    &&& 0 <= c < n
    &&& 0 <= h < n
    &&& 0 <= x < n
    &&& homes[c] == c
    &&& d <= ro
    &&& forall|j: int| 0 <= j < ro ==> homes[#[trigger] step(n, c, j)] != -1 && rel(homes, c, j) < d
    &&& homes[x] != -1 ==> rel(homes, c, ro) >= d
    &&& has_run(homes, h) ==> homes[x] == h
}

/// The fingerprints stored in the first `n` slots.
pub open spec fn stored(slots: Seq<Slot>, homes: Seq<int>, r: nat, n: int) -> Multiset<u64>
    decreases n,
{
    if n <= 0 {
        Multiset::empty()
    } else if homes[n - 1] == -1 {
        stored(slots, homes, r, n - 1)
    } else {
        stored(slots, homes, r, n - 1).insert(fingerprint(homes[n - 1], slots[n - 1].remainder, r))
    }
}

/// A table whose first `n` slots are empty stores nothing there.
pub proof fn lemma_stored_vacant(slots: Seq<Slot>, homes: Seq<int>, r: nat, n: int)
    requires
        n <= homes.len(),
        forall|p: int| 0 <= p < n ==> homes[p] == -1,
    ensures
        stored(slots, homes, r, n) == Multiset::<u64>::empty(),
    decreases n,
{
    if n > 0 {
        lemma_stored_vacant(slots, homes, r, n - 1);
    }
}

/// A shifted remainder follows a stored remainder whose home is not later than its own.
pub proof fn lemma_back_step(
    slots: Seq<Slot>,
    homes: Seq<int>,
    r: nat,
    pending: int,
    b: int,
    k: int,
)
    requires
        table_ok(slots, homes, r, pending),
        0 <= b < homes.len(),
        1 <= k < homes.len(),
        homes[step(homes.len() as int, b, k)] != -1,
        rel(homes, b, k) < k,
    ensures
        homes[step(homes.len() as int, b, k - 1)] != -1,
        rel(homes, b, k - 1) <= rel(homes, b, k),
{
    let n = homes.len() as int;
    assert(slot_ok(slots, homes, r, pending, step(n, b, k)));
}

/// Between a remainder's home and its slot every slot is in use, by remainders
/// whose homes are not later than its own.
pub proof fn lemma_back_chain(
    slots: Seq<Slot>,
    homes: Seq<int>,
    r: nat,
    pending: int,
    b: int,
    k: int,
    j: int,
)
    requires
        table_ok(slots, homes, r, pending),
        0 <= b < homes.len(),
        0 <= j <= k < homes.len(),
        homes[step(homes.len() as int, b, k)] != -1,
        rel(homes, b, k) <= j,
    ensures
        homes[step(homes.len() as int, b, j)] != -1,
        rel(homes, b, j) <= rel(homes, b, k),
    decreases k - j,
{
    if j < k {
        lemma_back_step(slots, homes, r, pending, b, k);
        lemma_back_chain(slots, homes, r, pending, b, k - 1, j);
    }
}

/// Counted from a barrier, no remainder's home lies before the barrier or after its slot.
pub proof fn lemma_barrier(
    slots: Seq<Slot>,
    homes: Seq<int>,
    r: nat,
    pending: int,
    b: int,
    k: int,
)
    requires
        table_ok(slots, homes, r, pending),
        0 <= b < homes.len(),
        is_barrier(homes, b),
        0 <= k < homes.len(),
        homes[step(homes.len() as int, b, k)] != -1,
    ensures
        0 <= rel(homes, b, k) <= k,
        homes[step(homes.len() as int, b, k)] == step(homes.len() as int, b, rel(homes, b, k)),
{
    let n = homes.len() as int;
    assert(slot_ok(slots, homes, r, pending, step(n, b, k)));
    if rel(homes, b, k) < 0 {
        lemma_back_chain(slots, homes, r, pending, b, k, 0);
        assert(slot_ok(slots, homes, r, pending, b));
    }
}

/// A bucket with a run has its own slot in use.
pub proof fn lemma_run_covers_home(
    slots: Seq<Slot>,
    homes: Seq<int>,
    r: nat,
    pending: int,
    h: int,
)
    requires
        table_ok(slots, homes, r, pending),
        0 <= h < homes.len(),
        has_run(homes, h),
    ensures
        homes[h] != -1,
{
    let n = homes.len() as int;
    let y = choose|t: int| 0 <= t < homes.len() && #[trigger] homes[t] == h;
    let k = fwd(n, h, y);
    assert(step(n, h, k) == y);
    lemma_back_chain(slots, homes, r, pending, h, k, 0);
}

/// One round of the cluster walk: having passed the run of bucket `b1`, the
/// cursor stands where the run of the next occupied bucket `b2` starts.
pub proof fn lemma_run_advance(
    slots: Seq<Slot>,
    homes: Seq<int>,
    r: nat,
    pending: int,
    c: int,
    h: int,
    b1: int,
    x1: int,
    b2: int,
    x2: int,
)
    requires
        table_ok(slots, homes, r, pending),
        pending == -1 || pending == h,
        run_head_at(homes, c, b1, x1),
        0 <= h < homes.len(),
        0 <= b2 < homes.len(),
        0 <= x2 < homes.len(),
        fwd(homes.len() as int, c, b1) < fwd(homes.len() as int, c, b2) <= fwd(
            homes.len() as int,
            c,
            h,
        ),
        fwd(homes.len() as int, c, x1) < fwd(homes.len() as int, c, x2),
        slots[b1].occupied,
        slots[b2].occupied,
        forall|o: int|
            fwd(homes.len() as int, c, b1) < o < fwd(homes.len() as int, c, b2) ==> !slots[#[trigger] step(
                homes.len() as int,
                c,
                o,
            )].occupied,
        forall|j: int|
            fwd(homes.len() as int, c, x1) <= j < fwd(homes.len() as int, c, x2) ==> homes[#[trigger] step(
                homes.len() as int,
                c,
                j,
            )] == b1,
        !slots[x2].continued,
        forall|j: int|
            1 <= j <= fwd(homes.len() as int, c, h) ==> slots[#[trigger] step(
                homes.len() as int,
                c,
                j,
            )].shifted,
    ensures
        run_head_at(homes, c, b2, x2),
{
    let n = homes.len() as int;
    let po1 = fwd(n, c, b1);
    let po2 = fwd(n, c, b2);
    let ro1 = fwd(n, c, x1);
    let ro2 = fwd(n, c, x2);
    let d = fwd(n, c, h);
    assert(step(n, c, ro2) == x2);
    assert(step(n, c, po2) == b2);
    assert(step(n, c, po1) == b1);
    assert forall|j: int| 0 <= j < ro2 implies homes[#[trigger] step(n, c, j)] != -1 && rel(
        homes,
        c,
        j,
    ) < po2 by {
        if j >= ro1 {
            assert(homes[step(n, c, j)] == b1);
        }
    }
    assert(slot_ok(slots, homes, r, pending, x2));
    // the slot reached, if in use, holds a remainder of b2 or of a later bucket
    if homes[x2] != -1 {
        lemma_barrier(slots, homes, r, pending, c, ro2);
        let g = rel(homes, c, ro2);
        let hb = homes[x2];
        assert(hb == step(n, c, g));
        assert(homes[step(n, c, ro2 - 1)] == b1);
        assert(prev_slot(n, x2) == step(n, c, ro2 - 1));
        assert(g > po1);
        assert(slot_ok(slots, homes, r, pending, hb));
        assert(has_run(homes, hb));
        if g < po2 {
            assert(!slots[step(n, c, g)].occupied);
        }
    }
    // so it lies past b2's own slot
    if ro2 <= d {
        assert(slots[step(n, c, ro2)].shifted);
    }
    assert(po2 < ro2 || (ro2 > d)) by {
        if ro2 <= d {
            assert(homes[x2] != -1);
            assert(rel(homes, c, ro2) < ro2);
        }
    }
    if has_run(homes, b2) {
        let y = choose|t: int| 0 <= t < homes.len() && #[trigger] homes[t] == b2;
        let oy = fwd(n, c, y);
        assert(step(n, c, oy) == y);
        lemma_barrier(slots, homes, r, pending, c, oy);
        assert(rel(homes, c, oy) == po2);
        if oy < ro2 {
            assert(homes[step(n, c, oy)] != -1 && rel(homes, c, oy) < po2);
        }
        lemma_back_chain(slots, homes, r, pending, c, oy, ro2);
        lemma_barrier(slots, homes, r, pending, c, ro2);
    }
}

/// A fingerprint of `q + r <= 64` bits fits in a `u64`.
pub proof fn lemma_fingerprint_bound(home: int, rem: u64, q: nat, r: nat)
    requires
        0 <= home < pow2(q),
        rem < pow2(r),
        q + r <= 64,
    ensures
        fingerprint(home, rem, r) == home * pow2(r) + rem,
        home * pow2(r) + rem < pow2(q + r),
        fingerprint(home, rem, r) as int / pow2(r) as int == home,
        fingerprint(home, rem, r) as int % pow2(r) as int == rem,
{
    let p = pow2(r) as int;
    let qq = pow2(q) as int;
    lemma_pow2_pos(r);
    lemma_pow2_adds(q, r);
    lemma2_to64();
    lemma2_to64_rest();
    if q + r < 64 {
        lemma_pow2_strictly_increases(q + r, 64);
    }
    assert(home * p + rem < qq * p) by (nonlinear_arith)
        requires
            0 <= home <= qq - 1,
            0 <= rem <= p - 1,
            p > 0,
    ;
    assert(home * p + rem >= 0) by (nonlinear_arith)
        requires
            0 <= home,
            0 <= rem,
            p > 0,
    ;
    lemma_fundamental_div_mod_converse_div(home * p + rem, p, home, rem as int);
    lemma_fundamental_div_mod_converse_mod(home * p + rem, p, home, rem as int);
}

/// A fingerprint is among those stored in the first `n` slots iff one of these slots holds it.
pub proof fn lemma_stored_contains(slots: Seq<Slot>, homes: Seq<int>, r: nat, n: int, f: u64)
    requires
        0 <= n <= homes.len(),
    ensures
        stored(slots, homes, r, n).count(f) > 0 <==> exists|p: int|
            0 <= p < n && #[trigger] homes[p] != -1 && fingerprint(homes[p], slots[p].remainder, r)
                == f,
    decreases n,
{
    if n > 0 {
        lemma_stored_contains(slots, homes, r, n - 1, f);
        let prior = exists|p: int|
            0 <= p < n - 1 && #[trigger] homes[p] != -1 && fingerprint(
                homes[p],
                slots[p].remainder,
                r,
            ) == f;
        let now = exists|p: int|
            0 <= p < n && #[trigger] homes[p] != -1 && fingerprint(homes[p], slots[p].remainder, r)
                == f;
        if prior {
            let p = choose|p: int|
                0 <= p < n - 1 && #[trigger] homes[p] != -1 && fingerprint(
                    homes[p],
                    slots[p].remainder,
                    r,
                ) == f;
            assert(homes[p] != -1);
            assert(now);
        }
        if homes[n - 1] != -1 && fingerprint(homes[n - 1], slots[n - 1].remainder, r) == f {
            assert(now);
        }
        if now && !prior {
            let p = choose|p: int|
                0 <= p < n && #[trigger] homes[p] != -1 && fingerprint(
                    homes[p],
                    slots[p].remainder,
                    r,
                ) == f;
            if p < n - 1 {
                assert(homes[p] != -1);
                assert(prior);
            }
        }
    }
}

/// The slots of a run are all the slots that store a remainder of its bucket:
/// when the `k` slots from the run's head `x` hold remainders of bucket `h`
/// and the next slot is not continued, no other slot holds one.
pub proof fn lemma_run_complete(
    slots: Seq<Slot>,
    homes: Seq<int>,
    r: nat,
    pending: int,
    c: int,
    h: int,
    x: int,
    k: int,
    p: int,
)
    requires
        table_ok(slots, homes, r, pending),
        run_head_at(homes, c, h, x),
        1 <= k <= homes.len(),
        forall|j: int| 0 <= j < k ==> homes[#[trigger] step(homes.len() as int, x, j)] == h,
        k < homes.len() ==> !slots[step(homes.len() as int, x, k)].continued,
        0 <= p < homes.len(),
        homes[p] == h,
    ensures
        fwd(homes.len() as int, x, p) < k,
{
    let n = homes.len() as int;
    let kp = fwd(n, x, p);
    let ro = fwd(n, c, x);
    let d = fwd(n, c, h);
    let op = fwd(n, c, p);
    if kp >= k {
        assert(step(n, c, op) == p);
        assert(step(n, c, ro) == x);
        assert(step(n, c, d) == h);
        lemma_barrier(slots, homes, r, pending, c, op);
        assert(rel(homes, c, op) == d);
        if op < ro {
            assert(homes[step(n, c, op)] != -1 && rel(homes, c, op) < d);
        }
        assert(op == ro + kp);
        let oi = ro + k;
        let idx = step(n, x, k);
        assert(step(n, c, oi) == idx);
        lemma_back_chain(slots, homes, r, pending, c, op, oi);
        lemma_barrier(slots, homes, r, pending, c, oi);
        assert(slot_ok(slots, homes, r, pending, idx));
        assert(step(n, x, k - 1) == prev_slot(n, idx));
        assert(homes[step(n, x, k - 1)] == h);
        assert(step(n, c, oi - 1) == prev_slot(n, idx));
        lemma_barrier(slots, homes, r, pending, c, oi - 1);
        if homes[idx] != idx {
            lemma_back_step(slots, homes, r, pending, c, oi);
        }
    }
}

/// A slot other than a pending, empty bucket is all zero iff it stores nothing.
pub proof fn lemma_vacant_iff(slots: Seq<Slot>, homes: Seq<int>, r: nat, pending: int, p: int)
    requires
        table_ok(slots, homes, r, pending),
        0 <= p < homes.len(),
        pending != p || homes[p] != -1,
    ensures
        slots[p].is_vacant() <==> homes[p] == -1,
{
    assert(slot_ok(slots, homes, r, pending, p));
    if homes[p] == p {
        assert(has_run(homes, p));
    }
    if homes[p] == -1 && has_run(homes, p) {
        lemma_run_covers_home(slots, homes, r, pending, p);
    }
}

/// How often a value occurs after an insertion.
pub proof fn lemma_insert_count(m: Multiset<u64>, k: u64, v: u64)
    ensures
        m.insert(k).count(v) == m.count(v) + (if v == k { 1int } else { 0int }),
{
    vstd::multiset::axiom_multiset_add(m, Multiset::singleton(k), v);
    vstd::multiset::axiom_multiset_singleton(k);
    vstd::multiset::axiom_multiset_singleton_different(k, v);
}

/// Two multisets that agree after the same insertion agree.
pub proof fn lemma_insert_cancel(a: Multiset<u64>, b: Multiset<u64>, k: u64)
    requires
        a.insert(k) == b.insert(k),
    ensures
        a == b,
{
    assert forall|v: u64| a.count(v) == b.count(v) by {
        lemma_insert_count(a, k, v);
        lemma_insert_count(b, k, v);
    }
    assert(a =~= b);
}

/// What changing one slot does to the stored fingerprints: the old
/// fingerprint of the slot, if any, gives way to the new one, if any.
pub proof fn lemma_stored_update(
    slots: Seq<Slot>,
    homes: Seq<int>,
    r: nat,
    n: int,
    i: int,
    s2: Slot,
    h2: int,
)
    requires
        slots.len() == homes.len(),
        0 <= i < homes.len(),
        0 <= n <= homes.len(),
    ensures
        i >= n ==> stored(slots.update(i, s2), homes.update(i, h2), r, n) == stored(
            slots,
            homes,
            r,
            n,
        ),
        i < n ==> ({
            let before = stored(slots, homes, r, n);
            let after = stored(slots.update(i, s2), homes.update(i, h2), r, n);
            let lhs = if homes[i] == -1 {
                after
            } else {
                after.insert(fingerprint(homes[i], slots[i].remainder, r))
            };
            let rhs = if h2 == -1 {
                before
            } else {
                before.insert(fingerprint(h2, s2.remainder, r))
            };
            lhs == rhs
        }),
    decreases n,
{
    if n > 0 {
        lemma_stored_update(slots, homes, r, n - 1, i, s2, h2);
        let slots2 = slots.update(i, s2);
        let homes2 = homes.update(i, h2);
        let before = stored(slots, homes, r, n);
        let after = stored(slots2, homes2, r, n);
        let before1 = stored(slots, homes, r, n - 1);
        let after1 = stored(slots2, homes2, r, n - 1);
        if i == n - 1 {
            assert(after1 == before1);
        } else if i < n - 1 {
            assert(homes2[n - 1] == homes[n - 1]);
            assert(slots2[n - 1] == slots[n - 1]);
            let lhs = if homes[i] == -1 {
                after
            } else {
                after.insert(fingerprint(homes[i], slots[i].remainder, r))
            };
            let rhs = if h2 == -1 {
                before
            } else {
                before.insert(fingerprint(h2, s2.remainder, r))
            };
            let kn = fingerprint(homes[n - 1], slots[n - 1].remainder, r);
            let ko = fingerprint(homes[i], slots[i].remainder, r);
            let k2 = fingerprint(h2, s2.remainder, r);
            assert forall|v: u64| lhs.count(v) == rhs.count(v) by {
                lemma_insert_count(after, ko, v);
                lemma_insert_count(after1, ko, v);
                lemma_insert_count(before, k2, v);
                lemma_insert_count(before1, k2, v);
                lemma_insert_count(after1, kn, v);
                lemma_insert_count(before1, kn, v);
            }
            assert(lhs =~= rhs);
        }
    }
}

/// The stored fingerprints do not depend on the metadata bits.
pub proof fn lemma_stored_agree(sa: Seq<Slot>, sb: Seq<Slot>, homes: Seq<int>, r: nat, n: int)
    requires
        0 <= n <= homes.len(),
        forall|p: int| 0 <= p < n ==> sa[p].remainder == (#[trigger] sb[p]).remainder,
    ensures
        stored(sa, homes, r, n) == stored(sb, homes, r, n),
    decreases n,
{
    if n > 0 {
        lemma_stored_agree(sa, sb, homes, r, n - 1);
        assert(sa[n - 1].remainder == sb[n - 1].remainder);
    }
}

/// The number of the first `n` slots that are not all zero.
pub open spec fn in_use(slots: Seq<Slot>, n: int) -> int
    decreases n,
{
    if n <= 0 {
        0
    } else if slots[n - 1].is_vacant() {
        in_use(slots, n - 1)
    } else {
        in_use(slots, n - 1) + 1
    }
}

/// Where the first `n` slots are all zero, none of them is in use.
pub proof fn lemma_used_none(slots: Seq<Slot>, n: int)
    requires
        forall|p: int| 0 <= p < n ==> (#[trigger] slots[p]).is_vacant(),
    ensures
        in_use(slots, n) == 0,
    decreases n,
{
    if n > 0 {
        lemma_used_none(slots, n - 1);
        assert(slots[n - 1].is_vacant());
    }
}

/// Of the first `n` slots at most `n` are in use.
pub proof fn lemma_used_bound(slots: Seq<Slot>, n: int)
    requires
        0 <= n,
    ensures
        0 <= in_use(slots, n) <= n,
    decreases n,
{
    if n > 0 {
        lemma_used_bound(slots, n - 1);
    }
}

/// Where fewer than the first `n` slots are in use, one of them is all zero.
pub proof fn lemma_used_gap(slots: Seq<Slot>, n: int)
    requires
        0 <= n,
        in_use(slots, n) < n,
    ensures
        exists|e: int| 0 <= e < n && (#[trigger] slots[e]).is_vacant(),
    decreases n,
{
    if n > 0 {
        if slots[n - 1].is_vacant() {
        } else {
            lemma_used_gap(slots, n - 1);
            let e = choose|e: int| 0 <= e < n - 1 && (#[trigger] slots[e]).is_vacant();
            assert(slots[e].is_vacant());
        }
    }
}

/// Two tables of which the second has slot `e` in use where the first has
/// it all zero, and which agree elsewhere on which slots are all zero: the
/// second has one slot more in use.
pub proof fn lemma_used_step(sa: Seq<Slot>, sb: Seq<Slot>, n: int, e: int)
    requires
        0 <= e,
        forall|p: int| 0 <= p < n && p != e ==> sa[p].is_vacant() == (#[trigger] sb[p]).is_vacant(),
        e < n ==> sa[e].is_vacant() && !sb[e].is_vacant(),
    ensures
        in_use(sb, n) == in_use(sa, n) + (if e < n { 1int } else { 0int }),
    decreases n,
{
    if n > 0 {
        lemma_used_step(sa, sb, n - 1, e);
        if n - 1 != e {
            assert(sa[n - 1].is_vacant() == sb[n - 1].is_vacant());
        }
    }
}

/// Two tables that agree on which slots are all zero have as many slots in use.
pub proof fn lemma_used_same(sa: Seq<Slot>, sb: Seq<Slot>, n: int)
    requires
        forall|p: int| 0 <= p < n ==> sa[p].is_vacant() == (#[trigger] sb[p]).is_vacant(),
    ensures
        in_use(sb, n) == in_use(sa, n),
    decreases n,
{
    if n > 0 {
        lemma_used_same(sa, sb, n - 1);
        assert(sa[n - 1].is_vacant() == sb[n - 1].is_vacant());
    }
}

/// A slot that is in use contributes to what is stored.
pub proof fn lemma_stored_contains_any(slots: Seq<Slot>, homes: Seq<int>, r: nat, n: int, p: int)
    requires
        0 <= p < n <= homes.len(),
        homes[p] != -1,
    ensures
        stored(slots, homes, r, n).len() > 0,
{
    let f = fingerprint(homes[p], slots[p].remainder, r);
    lemma_stored_contains(slots, homes, r, n, f);
    vstd::multiset::axiom_count_le_len(stored(slots, homes, r, n), f);
}

/// The first `n` slots store at most `n` fingerprints.
pub proof fn lemma_stored_bound(slots: Seq<Slot>, homes: Seq<int>, r: nat, n: int)
    requires
        0 <= n <= homes.len(),
    ensures
        stored(slots, homes, r, n).len() <= n,
    decreases n,
{
    if n > 0 {
        lemma_stored_bound(slots, homes, r, n - 1);
        vstd::multiset::lemma_insert_len(
            stored(slots, homes, r, n - 1),
            fingerprint(homes[n - 1], slots[n - 1].remainder, r),
        );
    }
}

/// A table in which every slot is in use stores as many fingerprints as it has slots.
pub proof fn lemma_stored_full(slots: Seq<Slot>, homes: Seq<int>, r: nat, n: int)
    requires
        0 <= n <= homes.len(),
        forall|p: int| 0 <= p < n ==> homes[p] != -1,
    ensures
        stored(slots, homes, r, n).len() == n,
    decreases n,
{
    if n > 0 {
        lemma_stored_full(slots, homes, r, n - 1);
        vstd::multiset::lemma_insert_len(
            stored(slots, homes, r, n - 1),
            fingerprint(homes[n - 1], slots[n - 1].remainder, r),
        );
    }
}

} // verus!
