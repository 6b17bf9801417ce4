//! What holds of every valid quotient filter, and of every insertion,
//! rebuilding and merging.

use vstd::prelude::*;
use vstd::arithmetic::power2::{lemma_pow2_pos, lemma_pow2_strictly_increases, pow2};
use crate::quotient_filter::QuotientFilter;
use crate::quotient_filter::layout::{
    fingerprint, has_run, lemma_fingerprint_bound, lemma_stored_contains, prev_slot, slot_ok,
};

verus! {

/// The remainder in slot `p` is the first of its run.
pub open spec fn is_run_head(qf: QuotientFilter, p: int) -> bool {
    qf.homes@[p] != -1 && (qf.homes@[p] == p || qf.homes@[prev_slot(qf.size as int, p)]
        != qf.homes@[p])
}

/// The remainder in slot `p` sits in its home slot, where a cluster starts.
pub open spec fn is_cluster_start(qf: QuotientFilter, p: int) -> bool {
    qf.homes@[p] == p
}

/// A key is found right after its insertion, provided the filter admits it.
pub proof fn law_inserted_key_is_found(pre: QuotientFilter, key: u64, post: QuotientFilter)
    requires
        pre.wf(),
        pre.entries < pre.size,
        pre.admits(key),
        pre.placed(key, post),
    ensures
        post.wf(),
        post@.contains(post.fingerprint_of(key)),
        post.entries == pre.entries + 1,
{
    reveal(QuotientFilter::placed);
    vstd::multiset::lemma_insert_containment(
        pre@,
        pre.fingerprint_of(key),
        pre.fingerprint_of(key),
    );
}

/// A key that was found before an admitted insertion is found after it, and
/// as often as before if it is another key.
pub proof fn law_insertion_keeps_keys(
    pre: QuotientFilter,
    key: u64,
    post: QuotientFilter,
    earlier: u64,
)
    requires
        pre.wf(),
        pre.entries < pre.size,
        pre.admits(key),
        pre.placed(key, post),
        pre@.contains(pre.fingerprint_of(earlier)),
    ensures
        post@.contains(post.fingerprint_of(earlier)),
        pre.fingerprint_of(earlier) != pre.fingerprint_of(key) ==> post@.count(
            post.fingerprint_of(earlier),
        ) == pre@.count(pre.fingerprint_of(earlier)),
{
    reveal(QuotientFilter::placed);
    vstd::multiset::lemma_insert_containment(
        pre@,
        pre.fingerprint_of(key),
        pre.fingerprint_of(earlier),
    );
    vstd::multiset::lemma_insert_other_elements_unchanged(
        pre@,
        pre.fingerprint_of(key),
        pre.fingerprint_of(earlier),
    );
}

/// The occupied bit of a bucket is set iff a stored fingerprint has that quotient.
pub proof fn law_occupied_iff_bucket_in_use(qf: QuotientFilter, i: int)
    requires
        qf.wf(),
        0 <= i < qf.size,
    ensures
        qf.filter@[i].occupied <==> exists|f: u64|
            qf@.contains(f) && (#[trigger] (f as int / pow2(qf.r as nat) as int)) == i,
{
    let n = qf.size as int;
    let r = qf.r as nat;
    let homes = qf.homes@;
    let slots = qf.filter@;
    assert(slot_ok(slots, homes, r, -1, i));
    if has_run(homes, i) {
        let t = choose|t: int| 0 <= t < homes.len() && #[trigger] homes[t] == i;
        assert(slot_ok(slots, homes, r, -1, t));
        let f = fingerprint(i, slots[t].remainder, r);
        lemma_fingerprint_bound(i, slots[t].remainder, qf.q as nat, r);
        lemma_stored_contains(slots, homes, r, n, f);
        assert(homes[t] != -1 && fingerprint(homes[t], slots[t].remainder, r) == f);
        assert(qf@.contains(f) && (f as int / pow2(r) as int) == i);
    }
    if exists|f: u64| qf@.contains(f) && (#[trigger] (f as int / pow2(r) as int)) == i {
        let f = choose|f: u64| qf@.contains(f) && (#[trigger] (f as int / pow2(r) as int)) == i;
        lemma_stored_contains(slots, homes, r, n, f);
        let p = choose|p: int|
            0 <= p < n && #[trigger] homes[p] != -1 && fingerprint(homes[p], slots[p].remainder, r)
                == f;
        assert(slot_ok(slots, homes, r, -1, p));
        lemma_fingerprint_bound(homes[p], slots[p].remainder, qf.q as nat, r);
        assert(homes[p] == i);
        assert(has_run(homes, i));
    }
}

/// Within a run the remainders do not decrease: a continued slot holds a
/// remainder that is not smaller than the one in the slot before it.
pub proof fn law_runs_ascend(qf: QuotientFilter, p: int)
    requires
        qf.wf(),
        0 <= p < qf.size,
        qf.filter@[p].continued,
    ensures
        qf.filter@[prev_slot(qf.size as int, p)].remainder <= qf.filter@[p].remainder,
        qf.homes@[prev_slot(qf.size as int, p)] == qf.homes@[p],
{
    assert(slot_ok(qf.filter@, qf.homes@, qf.r as nat, -1, p));
}

/// Of the slots in use, the heads of runs are the ones that are not
/// continued, and the starts of clusters the ones that are not shifted; an
/// empty slot has neither bit set.
pub proof fn law_metadata_bits(qf: QuotientFilter, p: int)
    requires
        qf.wf(),
        0 <= p < qf.size,
    ensures
        qf.homes@[p] != -1 ==> qf.filter@[p].continued == !is_run_head(qf, p),
        qf.homes@[p] != -1 ==> qf.filter@[p].shifted == !is_cluster_start(qf, p),
        qf.homes@[p] == -1 ==> qf.filter@[p].is_vacant(),
{
    let homes = qf.homes@;
    let slots = qf.filter@;
    let r = qf.r as nat;
    assert(slot_ok(slots, homes, r, -1, p));
    if homes[p] == -1 && has_run(homes, p) {
        crate::quotient_filter::layout::lemma_run_covers_home(slots, homes, r, -1, p);
    }
}

/// Rebuilding doubles the table, keeps the entries and the stored
/// fingerprints, and keeps every key of at most `q + r` bits that was found.
pub proof fn law_rebuilding_keeps_keys(pre: QuotientFilter, post: QuotientFilter, key: u64)
    requires
        pre.wf(),
        pre.regrown(post),
        key < pow2((pre.q + pre.r) as nat),
    ensures
        post.size == 2 * pre.size,
        post.q == pre.q + 1,
        post.entries == pre.entries,
        post@.contains(post.fingerprint_of(key)) == pre@.contains(pre.fingerprint_of(key)),
{
    let q = pre.q as nat;
    let r = pre.r as nat;
    lemma_pow2_pos(q + r);
    lemma_pow2_strictly_increases(q + r, q + 1 + r);
    vstd::arithmetic::div_mod::lemma_small_mod(key as nat, pow2(q + r));
    vstd::arithmetic::div_mod::lemma_small_mod(key as nat, pow2(q + 1 + r));
}

/// A merged filter finds every key of at most `q + r` bits that an input of
/// `q` quotient bits finds.
pub proof fn law_merging_keeps_keys(
    a: QuotientFilter,
    b: QuotientFilter,
    merged: QuotientFilter,
    key: u64,
)
    requires
        merged@ == a@.add(b@),
        merged.r == a.r,
        merged.q >= a.q,
        merged.q + merged.r <= 64,
        key < pow2((a.q + a.r) as nat),
        a@.contains(a.fingerprint_of(key)),
    ensures
        merged@.contains(merged.fingerprint_of(key)),
{
    let r = a.r as nat;
    lemma_pow2_pos((a.q + r) as nat);
    if a.q < merged.q {
        lemma_pow2_strictly_increases((a.q + r) as nat, (merged.q + r) as nat);
    }
    vstd::arithmetic::div_mod::lemma_small_mod(key as nat, pow2((a.q + r) as nat));
    vstd::arithmetic::div_mod::lemma_small_mod(key as nat, pow2((merged.q + r) as nat));
    vstd::multiset::axiom_multiset_add(a@, b@, key);
}

/// A merged filter stores each fingerprint as often as both inputs together.
pub proof fn law_merging_adds_counts(
    a: QuotientFilter,
    b: QuotientFilter,
    merged: QuotientFilter,
    f: u64,
)
    requires
        merged@ == a@.add(b@),
    ensures
        merged@.count(f) == a@.count(f) + b@.count(f),
        merged@.contains(f) == (a@.contains(f) || b@.contains(f)),
{
    vstd::multiset::axiom_multiset_add(a@, b@, f);
}

} // verus!
