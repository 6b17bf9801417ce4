//! Reading the stored fingerprints back, bucket by bucket and run by run.

use vstd::prelude::*;
use vstd::multiset::Multiset;
use vstd::arithmetic::power2::{lemma_pow2_pos, pow2};
use vstd::bits::{lemma_u64_pow2_no_overflow, lemma_u64_shl_is_mul};
use crate::quotient_filter::slot::Slot;
use crate::quotient_filter::layout::{
    fingerprint, fwd, lemma_fingerprint_bound, lemma_stored_update, lemma_stored_vacant,
    step, stored,
};

verus! {

/// The home buckets with everything blanked out but the buckets below `b`
/// and the first `j` slots of the run of `b`, which starts at slot `x`.
pub open spec fn part_homes(homes: Seq<int>, b: int, x: int, j: int) -> Seq<int> {
    Seq::new(
        homes.len(),
        |p: int|
            {
                let n = homes.len() as int;
                if 0 <= homes[p] < b {
                    homes[p]
                } else if homes[p] == b && fwd(n, x, p) < j {
                    b
                } else {
                    -1
                }
            },
    )
}

/// The `k` slots from `x` on are the slots that store a remainder of bucket `h`.
pub open spec fn run_is(homes: Seq<int>, h: int, x: int, k: int) -> bool {
    let n = homes.len() as int;
    &&& 1 <= k <= n
    &&& forall|p: int| 0 <= p < n ==> (#[trigger] homes[p] == h <==> fwd(n, x, p) < k)
}

/// The fingerprints of bucket `h` in the `k` slots from `x` on, in slot order.
pub open spec fn run_keys(slots: Seq<Slot>, r: nat, h: int, x: int, k: int) -> Seq<u64> {
    Seq::new(
        k as nat,
        |j: int| fingerprint(h, slots[step(slots.len() as int, x, j)].remainder, r),
    )
}

/// The sequence does not decrease.
pub open spec fn ascending(s: Seq<u64>) -> bool {
    forall|i: int, j: int| 0 <= i <= j < s.len() ==> s[i] <= s[j]
}

/// Shifting the quotient above the remainder bits and or-ing the remainder in gives the fingerprint.
pub proof fn lemma_key_bits(hq: u64, rr: u64, rem: u64, q: nat)
    requires
        hq < pow2(q),
        rem < pow2(rr as nat),
        q + rr <= 64,
        rr < 64,
    ensures
        (hq << rr) | rem == fingerprint(hq as int, rem, rr as nat),
{
    lemma_fingerprint_bound(hq as int, rem, q, rr as nat);
    lemma_pow2_pos(rr as nat);
    lemma_u64_pow2_no_overflow(rr as nat);
    vstd::arithmetic::power2::lemma2_to64();
    vstd::arithmetic::power2::lemma2_to64_rest();
    if q + rr < 64 {
        vstd::arithmetic::power2::lemma_pow2_strictly_increases(q + rr as nat, 64);
    }
    lemma_u64_shl_is_mul(hq, rr);
    lemma_u64_shl_is_mul(1u64, rr);
    let a = hq << rr;
    let lim = 1u64 << rr;
    assert((a | rem) == a + rem) by (bit_vector)
        requires
            a == hq << rr,
            lim == 1u64 << rr,
            rem < lim,
            rr < 64,
    ;
}

/// Taking in one more slot of the run adds its fingerprint.
pub proof fn lemma_part_next(slots: Seq<Slot>, homes: Seq<int>, r: nat, b: int, x: int, j: int)
    requires
        slots.len() == homes.len(),
        0 <= x < homes.len(),
        0 <= j < homes.len(),
        0 <= b,
        homes[step(homes.len() as int, x, j)] == b,
    ensures
        stored(slots, part_homes(homes, b, x, j + 1), r, homes.len() as int) == stored(
            slots,
            part_homes(homes, b, x, j),
            r,
            homes.len() as int,
        ).insert(fingerprint(b, slots[step(homes.len() as int, x, j)].remainder, r)),
{
    let n = homes.len() as int;
    let p = step(n, x, j);
    let ga = part_homes(homes, b, x, j);
    let gb = part_homes(homes, b, x, j + 1);
    assert(fwd(n, x, p) == j);
    lemma_stored_update(slots, ga, r, n, p, slots[p], b);
    assert(slots.update(p, slots[p]) =~= slots);
    assert(ga.update(p, b) =~= gb);
}

/// Taking in the first `k` slots of the run adds their fingerprints.
pub proof fn lemma_part_run(slots: Seq<Slot>, homes: Seq<int>, r: nat, b: int, x: int, k: int)
    requires
        slots.len() == homes.len(),
        0 <= x < homes.len(),
        0 <= k <= homes.len(),
        0 <= b,
        forall|j: int| 0 <= j < k ==> homes[#[trigger] step(homes.len() as int, x, j)] == b,
    ensures
        stored(slots, part_homes(homes, b, x, k), r, homes.len() as int) == stored(
            slots,
            part_homes(homes, b, x, 0),
            r,
            homes.len() as int,
        ).add(run_keys(slots, r, b, x, k).to_multiset()),
    decreases k,
{
    broadcast use vstd::multiset::group_multiset_axioms;

    let n = homes.len() as int;
    let base = stored(slots, part_homes(homes, b, x, 0), r, n);
    if k == 0 {
        assert(run_keys(slots, r, b, x, 0) =~= Seq::<u64>::empty());
        assert(run_keys(slots, r, b, x, 0).to_multiset() =~= Multiset::<u64>::empty()) by {
            run_keys(slots, r, b, x, 0).to_multiset_ensures();
            vstd::multiset::lemma_multiset_empty_len(run_keys(slots, r, b, x, 0).to_multiset());
        }
        assert(base.add(Multiset::<u64>::empty()) =~= base);
    } else {
        lemma_part_run(slots, homes, r, b, x, k - 1);
        assert(homes[step(n, x, k - 1)] == b);
        lemma_part_next(slots, homes, r, b, x, k - 1);
        let prior = run_keys(slots, r, b, x, k - 1);
        let f = fingerprint(b, slots[step(n, x, k - 1)].remainder, r);
        assert(run_keys(slots, r, b, x, k) =~= prior.push(f));
        prior.to_multiset_ensures();
        assert(prior.push(f).to_multiset() =~= prior.to_multiset().insert(f));
        assert(base.add(prior.to_multiset()).insert(f) =~= base.add(
            prior.to_multiset().insert(f),
        ));
    }
}

/// With no slot of the run taken in, it does not matter where the run starts.
pub proof fn lemma_part_start(homes: Seq<int>, b: int, x: int, x2: int)
    requires
        0 <= x < homes.len(),
        0 <= x2 < homes.len(),
    ensures
        part_homes(homes, b, x, 0) == part_homes(homes, b, x2, 0),
{
    let n = homes.len() as int;
    assert forall|p: int| 0 <= p < n implies part_homes(homes, b, x, 0)[p] == part_homes(
        homes,
        b,
        x2,
        0,
    )[p] by {
        assert(fwd(n, x, p) >= 0);
        assert(fwd(n, x2, p) >= 0);
    }
    assert(part_homes(homes, b, x, 0) =~= part_homes(homes, b, x2, 0));
}

/// Once the whole run of a bucket is taken in, the next bucket's turn begins.
pub proof fn lemma_part_done(homes: Seq<int>, b: int, x: int, k: int, x2: int)
    requires
        0 <= b,
        0 <= x2 < homes.len(),
        forall|p: int|
            0 <= p < homes.len() && #[trigger] homes[p] == b ==> fwd(homes.len() as int, x, p) < k,
    ensures
        part_homes(homes, b, x, k) == part_homes(homes, b + 1, x2, 0),
{
    let n = homes.len() as int;
    assert forall|p: int| 0 <= p < n implies part_homes(homes, b, x, k)[p] == part_homes(
        homes,
        b + 1,
        x2,
        0,
    )[p] by {
        assert(fwd(n, x2, p) >= 0);
        if homes[p] == b {
            assert(fwd(n, x, p) < k);
        }
    }
    assert(part_homes(homes, b, x, k) =~= part_homes(homes, b + 1, x2, 0));
}

/// Before the first bucket nothing is taken in; after the last, everything.
pub proof fn lemma_part_ends(slots: Seq<Slot>, homes: Seq<int>, r: nat, x: int)
    requires
        slots.len() == homes.len(),
        0 <= x < homes.len(),
        forall|p: int| 0 <= p < homes.len() ==> -1 <= #[trigger] homes[p] < homes.len(),
    ensures
        stored(slots, part_homes(homes, 0, x, 0), r, homes.len() as int) == Multiset::<u64>::empty(),
        part_homes(homes, homes.len() as int, x, 0) == homes,
{
    let n = homes.len() as int;
    assert forall|p: int| 0 <= p < n implies part_homes(homes, 0, x, 0)[p] == -1 by {
        assert(fwd(n, x, p) >= 0);
    }
    lemma_stored_vacant(slots, part_homes(homes, 0, x, 0), r, n);
    assert(part_homes(homes, n, x, 0) =~= homes);
}

} // verus!
