//! A quotient filter: approximate membership that stores one remainder per key
//! in a circular table with three metadata bits per slot.
//!
//! The model of a filter is the multiset of the fingerprints it stores, a
//! fingerprint being the low `q + r` bits of a key. A filter is *valid*
//! (`wf`) when its table is the layout of that multiset: runs in the order of
//! their buckets, remainders ascending within a run, the bits telling runs
//! and clusters apart. Lookup, rebuilding and merging work on valid filters.
//!
//! Insertion keeps a filter valid where the filter *admits* the key (see
//! `admits`). It does not where the key's bucket has no run yet, the bucket's
//! own slot is taken, and the slot where the run would start holds a smaller
//! remainder of a later bucket: the new remainder is then stored behind that
//! remainder, where lookup does not find it. Such a filter is still *sound*:
//! its entry count is the number of slots in use, and it takes further keys
//! until it is full.

pub mod collecting;
pub mod laws;
pub mod layout;
pub mod lemmas;
pub mod placing;
pub mod slot;

use vstd::prelude::*;
use vstd::arithmetic::div_mod::lemma_breakdown;
use vstd::arithmetic::power2::{
    lemma_pow2_adds, lemma_pow2_pos, lemma_pow2_strictly_increases, pow2,
};
use vstd::bits::{
    lemma_u64_low_bits_mask_is_mod, lemma_u64_pow2_no_overflow, lemma_u64_shl_is_mul,
    lemma_u64_shr_is_div, lemma_usize_pow2_no_overflow, lemma_usize_shl_is_mul,
};
use vstd::multiset::Multiset;
use crate::quotient_filter::collecting::{
    ascending, lemma_key_bits, lemma_part_done, lemma_part_ends, lemma_part_run,
    lemma_part_start, part_homes, run_is, run_keys,
};
use crate::quotient_filter::layout::{
    back, fingerprint, fwd, has_run, holds, in_use, is_barrier, lemma_barrier, lemma_fingerprint_bound,
    lemma_run_advance, lemma_run_complete, lemma_run_covers_home, lemma_stored_bound,
    lemma_stored_contains, lemma_stored_contains_any, lemma_stored_vacant, lemma_used_bound,
    lemma_used_gap, lemma_used_none, lemma_used_step, lemma_vacant_iff,
    next_slot, prev_slot, rel, run_head_at, slot_ok, step, stored, table_ok,
};
use crate::quotient_filter::placing::{
    after_slots, gap_after, lemma_mark, lemma_used_written, lemma_written,
    lemma_written_vacant, marked, moving_slots, place_of, placed_homes, scan_stops, written,
};
use crate::quotient_filter::slot::Slot;

verus! {

/// A quotient filter of `2^q` slots that keeps `r` remainder bits per key.
pub struct QuotientFilter {
    /// Number of quotient bits; the table has `2^q` slots.
    pub q: u64,
    /// Number of remainder bits stored per slot.
    pub r: u64,
    /// Number of stored remainders, duplicates counted.
    pub entries: usize,
    /// Number of slots.
    pub size: usize,
    /// The circular slot table.
    pub filter: Vec<Slot>,
    /// For each slot, the home bucket of the remainder it stores, `-1` for an empty slot.
    pub homes: Ghost<Seq<int>>,
    /// A slot that is empty or stores a remainder in its own home bucket.
    pub anchor: Ghost<int>,
}

impl View for QuotientFilter {
    type V = Multiset<u64>;

    /// The stored fingerprints: for each stored remainder, its home bucket
    /// in the high bits and the remainder in the low `r` bits.
    open spec fn view(&self) -> Multiset<u64> {
        stored(self.filter@, self.homes@, self.r as nat, self.size as int)
    }
}

impl QuotientFilter {
    /// The table has `2^q` slots, at least two, and `q + r` is at most 64.
    pub open spec fn dims(&self) -> bool {
        &&& 1 <= self.q
        &&& 1 <= self.r
        &&& self.q + self.r <= 64
        &&& self.size == pow2(self.q as nat)
        &&& self.filter@.len() == self.size
        &&& self.size >= 2
    }

    /// `entries` counts the slots in use, whatever they hold.
    pub open spec fn sound(&self) -> bool {
        &&& self.dims()
        &&& self.entries == in_use(self.filter@, self.size as int)
    }

    /// The table is a valid layout in which the occupied bit of bucket `pending`,
    /// if there is one, may have been set ahead of its first remainder.
    pub open spec fn layout_ok(&self, pending: int) -> bool {
        &&& self.dims()
        &&& table_ok(self.filter@, self.homes@, self.r as nat, pending)
        &&& 0 <= self.anchor@ < self.size
        &&& is_barrier(self.homes@, self.anchor@)
    }

    /// The table is a valid layout of the stored fingerprints, and `entries` counts them.
    pub open spec fn wf(&self) -> bool {
        &&& self.sound()
        &&& self.layout_ok(-1)
        &&& self.entries == self@.len()
    }

    /// Some slot is all zero.
    pub open spec fn has_gap(&self) -> bool {
        exists|e: int| 0 <= e < self.size && (#[trigger] self.filter@[e]).is_vacant()
    }

    /// The table is a valid layout, with the occupied bit of bucket `h`
    /// perhaps set ahead of its run, in which the slot of bucket `h` is in
    /// use and the bucket has a run or some slot is empty.
    pub open spec fn laid_out(&self, h: int) -> bool {
        &&& self.layout_ok(-1) || self.layout_ok(h)
        &&& self.homes@[h] != -1
        &&& has_run(self.homes@, h) || self.has_vacancy()
    }

    /// Some slot is empty.
    pub open spec fn has_vacancy(&self) -> bool {
        exists|e: int| 0 <= e < self.size && #[trigger] self.homes@[e] == -1
    }

    /// The home bucket of `key`.
    pub open spec fn quotient_of(&self, key: u64) -> int {
        Self::spec_split(self.q as nat, self.r as nat, key).0
    }

    /// The remainder stored for `key`.
    pub open spec fn remainder_of(&self, key: u64) -> u64 {
        Self::spec_split(self.q as nat, self.r as nat, key).1 as u64
    }

    /// The fingerprint kept of `key`.
    pub open spec fn fingerprint_of(&self, key: u64) -> u64 {
        Self::spec_fingerprint(self.q as nat, self.r as nat, key)
    }

    /// Insertion puts `key` where lookup finds it: its home slot is empty, or
    /// its bucket has a run already, or the slot where the run of its bucket
    /// would start is empty or holds a remainder that is not smaller. (Else
    /// insertion stores the remainder behind remainders of a later bucket.)
    pub open spec fn admits(&self, key: u64) -> bool {
        let h = self.quotient_of(key);
        let rk = self.remainder_of(key);
        ||| self.homes@[h] == -1
        ||| has_run(self.homes@, h)
        ||| forall|c: int, x: int| #[trigger]
            run_head_at(self.homes@, c, h, x) ==> self.homes@[x] == -1
                || self.filter@[x].remainder >= rk
    }

    /// `post` is the filter after `key` was put into this filter, which has an
    /// empty slot: the table is rewritten as insertion prescribes, and where
    /// the filter admits the key, `post` is valid and stores one fingerprint more.
    pub open spec fn placed(&self, key: u64, post: QuotientFilter) -> bool {
        let h = self.quotient_of(key);
        let rk = self.remainder_of(key);
        let s0 = marked(self.filter@, h);
        &&& 0 <= h < self.size
        &&& rk < pow2(self.r as nat)
        &&& post.q == self.q
        &&& post.r == self.r
        &&& post.size == self.size
        &&& post.entries == self.entries + 1
        &&& exists|x: int, ip: int, len: int| #[trigger]
            place_of(s0, self.homes@, h, rk, x, ip, len) && post.filter@ == after_slots(
                s0,
                self.homes@,
                h,
                x,
                rk,
                ip,
                len,
            ) && (self.admits(key) ==> post.homes@ == placed_homes(self.homes@, h, ip, len))
        &&& self.admits(key) ==> post.wf() && post@ == self@.insert(self.fingerprint_of(key))
    }

    /// `post` is this filter rebuilt with one more quotient bit: twice the
    /// slots, the same fingerprints, none of them stored before its home slot
    /// or in the last slot.
    pub open spec fn regrown(&self, post: QuotientFilter) -> bool {
        &&& post.wf()
        &&& post.q == self.q + 1
        &&& post.r == self.r
        &&& post.size == 2 * self.size
        &&& post.entries == self.entries
        &&& post@ == self@
        &&& post.upright(self.size as int)
    }

    /// No stored remainder has wrapped around the end of the table, all home
    /// buckets are below `bound`, and the last slot is empty.
    pub open spec fn upright(&self, bound: int) -> bool {
        &&& forall|p: int|
            0 <= p < self.size && #[trigger] self.homes@[p] != -1 ==> self.homes@[p] <= p
                && self.homes@[p] < bound
        &&& self.homes@[self.size - 1] == -1
    }

    /// The state of a filter while fingerprints with quotients below `bound`
    /// are put in in ascending order: after `i` of them, the last with
    /// quotient `hl`, no remainder lies before its home slot, none belongs to
    /// a bucket after `hl`, and only slots before `bound + i - 1` are in use.
    pub open spec fn erect(&self, bound: int, i: int, hl: int) -> bool {
        &&& hl < bound
        &&& 0 <= i
        &&& bound + i <= self.size
        &&& forall|p: int|
            0 <= p < self.size && #[trigger] self.homes@[p] != -1 ==> self.homes@[p] <= p
                && self.homes@[p] <= hl && p + 1 < bound + i
    }

    /// Inserting `keys` one after the other is admitted each time, whatever
    /// valid filter the insertions before have left.
    pub open spec fn takes(&self, keys: Seq<u64>) -> bool
        decreases keys.len(),
    {
        keys.len() == 0 || (self.admits(keys[0]) && forall|next: QuotientFilter| #[trigger]
            self.placed(keys[0], next) ==> next.takes(keys.drop_first()))
    }

    /// An empty filter of `2^q` slots and `r` remainder bits.
    pub open spec fn blank(&self, q: nat, r: nat) -> bool {
        &&& self.wf()
        &&& self.q == q
        &&& self.r == r
        &&& self.entries == 0
        &&& self@ == Multiset::<u64>::empty()
    }

    /// The most quotient bits that a merged filter of `r` remainder bits can have.
    pub open spec fn merge_limit(r: nat) -> nat {
        if usize::BITS - 1 < 64 - r {
            (usize::BITS - 1) as nat
        } else {
            (64 - r) as nat
        }
    }

    /// `qs` is the number of quotient bits of the filter that merges filters
    /// of `qa` and `qb` quotient bits with `total` entries: the least that is
    /// not below either and gives at least `total` slots.
    pub open spec fn merged_q(qa: nat, qb: nat, total: nat, qs: nat) -> bool {
        &&& qs >= qa
        &&& qs >= qb
        &&& pow2(qs) >= total
        &&& qs > qa && qs > qb ==> pow2((qs - 1) as nat) < total
    }

    /// Merging puts every fingerprint of both filters where lookup finds it:
    /// the insertions into the new filter, of this filter's fingerprints in
    /// ascending order and then of the other's, are admitted each time.
    pub open spec fn merges_with(&self, other: &QuotientFilter) -> bool {
        forall|fresh: QuotientFilter, qs: nat, ka: Seq<u64>, kb: Seq<u64>|
            Self::merged_q(
                self.q as nat,
                other.q as nat,
                (self.entries + other.entries) as nat,
                qs,
            ) && #[trigger] fresh.blank(qs, self.r as nat) && ascending(ka) && ascending(kb)
                && ka.to_multiset() == self@ && kb.to_multiset() == other@ ==> #[trigger]
                fresh.takes(ka + kb)
    }

    /// The quotient and the remainder of `key` in a filter of `q` quotient and `r` remainder bits.
    pub open spec fn spec_split(q: nat, r: nat, key: u64) -> (int, int) {
        ((key as int / pow2(r) as int) % pow2(q) as int, key as int % pow2(r) as int)
    }

    /// The fingerprint that the filter keeps of `key`: its low `q + r` bits.
    pub open spec fn spec_fingerprint(q: nat, r: nat, key: u64) -> u64 {
        (key as int % pow2(q + r) as int) as u64
    }

    /// An empty filter of `2^q` slots that keeps `r` remainder bits per key.
    pub fn new(q: u64, r: u64) -> (qf: QuotientFilter)
        requires
            1 <= q,
            1 <= r,
            q + r <= 64,
            q < usize::BITS,
        ensures
            qf.wf(),
            qf.q == q,
            qf.r == r,
            qf.entries == 0,
            qf.size == pow2(q as nat),
            qf@ == Multiset::<u64>::empty(),
            forall|p: int| 0 <= p < qf.size ==> qf.homes@[p] == -1,
    {
        proof {
            lemma_usize_pow2_no_overflow(q as nat);
            lemma_usize_shl_is_mul(1usize, q as usize);
            lemma_pow2_strictly_increases(0, q as nat);
            vstd::arithmetic::power2::lemma2_to64();
        }
        let size: usize = 1usize << (q as usize);
        let filter = vec![Slot::default(); size];
        let ghost homes = Seq::new(size as nat, |i: int| -1int);
        let qf = QuotientFilter {
            q,
            r,
            size,
            entries: 0,
            filter,
            homes: Ghost(homes),
            anchor: Ghost(0),
        };
        proof {
            assert forall|p: int| 0 <= p < size implies #[trigger] slot_ok(
                qf.filter@,
                homes,
                r as nat,
                -1,
                p,
            ) by {}
            lemma_stored_vacant(qf.filter@, homes, r as nat, size as int);
            lemma_used_none(qf.filter@, size as int);
        }
        qf
    }

    /// Splits `key` into its quotient (the `q` bits above the low `r`) and its
    /// remainder (the low `r` bits).
    pub fn split(&self, key: u64) -> (qr: (u64, u64))
        requires
            1 <= self.q,
            1 <= self.r,
            self.q + self.r <= 64,
        ensures
            (qr.0 as int, qr.1 as int) == Self::spec_split(self.q as nat, self.r as nat, key),
            qr.0 < pow2(self.q as nat),
            qr.1 < pow2(self.r as nat),
            fingerprint(qr.0 as int, qr.1, self.r as nat) == Self::spec_fingerprint(
                self.q as nat,
                self.r as nat,
                key,
            ),
    {
        proof {
            let q = self.q as nat;
            let r = self.r as nat;
            lemma_u64_pow2_no_overflow(q);
            lemma_u64_pow2_no_overflow(r);
            lemma_u64_shl_is_mul(1u64, self.q);
            lemma_u64_shl_is_mul(1u64, self.r);
            lemma_u64_shr_is_div(key, self.r);
            lemma_u64_low_bits_mask_is_mod(key >> self.r, q);
            lemma_u64_low_bits_mask_is_mod(key, r);
            lemma_pow2_pos(q);
            lemma_pow2_pos(r);
            lemma_pow2_adds(r, q);
            lemma_breakdown(key as int, pow2(r) as int, pow2(q) as int);
        }
        let quotient = (key >> self.r) & ((1u64 << self.q) - 1);
        let remainder = key & ((1u64 << self.r) - 1);
        (quotient, remainder)
    }

    /// The slot where the run of bucket `home_idx` starts. Walks back to the
    /// start of the cluster, then forward past one run for each occupied
    /// bucket before `home_idx`. The walk ends in a valid layout, and in any
    /// table with a slot that is all zero.
    #[verifier::rlimit(50)]
    pub fn find_run_head(&self, home_idx: usize) -> (run_head: usize)
        requires
            self.dims(),
            home_idx < self.size,
            self.filter@[home_idx as int].occupied,
            self.laid_out(home_idx as int) || self.has_gap(),
        ensures
            run_head < self.size,
            self.laid_out(home_idx as int) ==> exists|c: int|
                run_head_at(self.homes@, c, home_idx as int, run_head as int),
    {
        let ghost n = self.size as int;
        let ghost h = home_idx as int;
        let ghost slots = self.filter@;
        let ghost homes = self.homes@;
        let ghost r = self.r as nat;
        let ghost ok = self.laid_out(h);
        let ghost pending: int = if self.layout_ok(-1) { -1 } else { h };
        let ghost a = self.anchor@;
        // a slot that is not shifted, where the walk back ends at the latest
        let ghost e: int = if ok {
            a
        } else {
            choose|e: int| 0 <= e < self.size && (#[trigger] self.filter@[e]).is_vacant()
        };
        let mut bucket = home_idx;
        let ghost mut t: int = 0;
        proof {
            if ok {
                assert(slot_ok(slots, homes, r, pending, a));
            }
        }
        while self.filter[bucket].is_shifted()
            invariant
                slots == self.filter@,
                slots.len() == n,
                n == self.size,
                0 <= h < n,
                bucket < n,
                0 <= e < n,
                !slots[e].shifted,
                ok ==> table_ok(slots, homes, r, pending) && n == homes.len() && a == e
                    && is_barrier(homes, a) && 0 <= t < n && bucket as int == back(n, h, t) && t
                    + fwd(n, a, bucket as int) == fwd(n, a, h) && homes[bucket as int] != -1,
                ok ==> forall|u: int| 0 <= u < t ==> slots[#[trigger] back(n, h, u)].shifted,
            decreases fwd(n, e, bucket as int),
        {
            proof {
                if ok {
                    assert(slot_ok(slots, homes, r, pending, bucket as int));
                }
            }
            bucket = self.prev_index(bucket);
            proof {
                t = t + 1;
            }
        }
        let ghost c = bucket as int;
        let ghost d = t;
        proof {
            if ok {
                assert(slot_ok(slots, homes, r, pending, c));
                assert(fwd(n, c, h) == d);
                assert forall|j: int| 1 <= j <= d implies slots[#[trigger] step(n, c, j)].shifted by {
                    assert(step(n, c, j) == back(n, h, d - j));
                }
                assert(step(n, c, 0) == c);
                assert(has_run(homes, c));
            }
        }
        // a slot that is not continued, where the walk over a run ends at the latest
        let ghost g: int = if ok {
            0
        } else {
            choose|g: int| 0 <= g < self.size && (#[trigger] self.filter@[g]).is_vacant()
        };
        let mut run_head = bucket;
        let mut probe = bucket;
        while probe != home_idx
            invariant
                slots == self.filter@,
                slots.len() == n,
                n == self.size,
                h == home_idx as int,
                0 <= h < n,
                probe < n,
                run_head < n,
                slots[h].occupied,
                ok == self.laid_out(h),
                !ok ==> 0 <= g < n && slots[g].is_vacant(),
                ok ==> table_ok(slots, homes, r, pending) && (pending == -1 || pending == h) && n
                    == homes.len() && homes == self.homes@ && 0 <= c < n && d == fwd(n, c, h)
                    && fwd(n, c, probe as int) <= d && slots[probe as int].occupied
                    && run_head_at(homes, c, probe as int, run_head as int),
                ok ==> forall|j: int| 1 <= j <= d ==> slots[#[trigger] step(n, c, j)].shifted,
            decreases fwd(n, probe as int, h),
        {
            let ghost b1 = probe as int;
            let ghost x1 = run_head as int;
            let ghost po1 = fwd(n, c, b1);
            let ghost ro1 = fwd(n, c, x1);
            let ghost far = fwd(n, b1, h);
            proof {
                if ok {
                    assert(slot_ok(slots, homes, r, pending, b1));
                    assert(has_run(homes, b1));
                    assert(step(n, c, d) == h);
                }
            }
            probe = self.next_index(probe);
            while !self.filter[probe].is_occupied()
                invariant
                    slots == self.filter@,
                    slots.len() == n,
                    n == self.size,
                    0 <= h < n,
                    0 <= b1 < n,
                    probe < n,
                    slots[h].occupied,
                    far == fwd(n, b1, h),
                    0 <= fwd(n, probe as int, h) < far,
                    ok ==> 0 <= c < n && d == fwd(n, c, h) && po1 == fwd(n, c, b1) && po1 < fwd(
                        n,
                        c,
                        probe as int,
                    ) <= d,
                    ok ==> forall|o: int|
                        po1 < o < fwd(n, c, probe as int) ==> !slots[#[trigger] step(
                            n,
                            c,
                            o,
                        )].occupied,
                decreases fwd(n, probe as int, h),
            {
                proof {
                    if ok {
                        assert(step(n, c, fwd(n, c, probe as int)) == probe as int);
                    }
                }
                probe = self.next_index(probe);
            }
            let ghost b2 = probe as int;
            let ghost po2 = fwd(n, c, b2);
            // in a valid layout, a slot that the walk over b1's run cannot pass
            let ghost stop: int;
            proof {
                if ok {
                    assert(slot_ok(slots, homes, r, pending, b2));
                    assert(step(n, c, ro1) == x1);
                    if has_run(homes, b2) {
                        let y = choose|u: int| 0 <= u < homes.len() && #[trigger] homes[u] == b2;
                        stop = fwd(n, c, y);
                        assert(step(n, c, stop) == y);
                        lemma_barrier(slots, homes, r, pending, c, stop);
                        lemma_barrier(slots, homes, r, pending, c, ro1);
                        if stop < ro1 {
                            assert(homes[step(n, c, stop)] != -1 && rel(homes, c, stop) < po1);
                        }
                    } else {
                        let v = choose|v: int| 0 <= v < self.size && #[trigger] self.homes@[v] == -1;
                        stop = fwd(n, c, v);
                        assert(step(n, c, stop) == v);
                        if stop < ro1 {
                            assert(homes[step(n, c, stop)] != -1);
                        }
                    }
                    assert(ro1 < stop < n);
                } else {
                    stop = 0;
                }
            }
            run_head = self.next_index(run_head);
            while self.filter[run_head].is_continued()
                invariant
                    slots == self.filter@,
                    slots.len() == n,
                    n == self.size,
                    run_head < n,
                    !ok ==> 0 <= g < n && slots[g].is_vacant(),
                    ok ==> table_ok(slots, homes, r, pending) && n == homes.len() && 0 <= c < n
                        && 0 <= x1 < n && ro1 == fwd(n, c, x1) && 0 <= b1 < n && 0 <= b2 < n && b1
                        != b2 && ro1 < fwd(n, c, run_head as int) <= stop < n && (homes[step(
                        n,
                        c,
                        stop,
                    )] == -1 || homes[step(n, c, stop)] == b2),
                    ok ==> forall|j: int|
                        ro1 <= j < fwd(n, c, run_head as int) ==> homes[#[trigger] step(n, c, j)]
                            == b1,
                decreases
                        (if ok {
                            stop - fwd(n, c, run_head as int)
                        } else {
                            fwd(n, run_head as int, g)
                        }),
            {
                proof {
                    if ok {
                        let cur = fwd(n, c, run_head as int);
                        assert(step(n, c, cur) == run_head as int);
                        assert(slot_ok(slots, homes, r, pending, run_head as int));
                        assert(prev_slot(n, run_head as int) == step(n, c, cur - 1));
                        assert(homes[step(n, c, cur - 1)] == b1);
                    }
                }
                run_head = self.next_index(run_head);
            }
            proof {
                if ok {
                    lemma_run_advance(slots, homes, r, pending, c, h, b1, x1, b2, run_head as int);
                }
            }
        }
        run_head
    }

    /// Appends to `keys` the fingerprints of the run of bucket `quotient_idx`,
    /// which starts at slot `run_head`, in slot order.
    pub fn visit_run(&self, run_head: usize, quotient_idx: usize, keys: &mut Vec<u64>)
        requires
            self.wf(),
            quotient_idx < self.size,
            has_run(self.homes@, quotient_idx as int),
            exists|c: int| run_head_at(self.homes@, c, quotient_idx as int, run_head as int),
        ensures
            exists|k: int| #[trigger]
                run_is(self.homes@, quotient_idx as int, run_head as int, k) && final(keys)@
                    == old(keys)@ + run_keys(
                    self.filter@,
                    self.r as nat,
                    quotient_idx as int,
                    run_head as int,
                    k,
                ) && ascending(
                    run_keys(self.filter@, self.r as nat, quotient_idx as int, run_head as int, k),
                ),
    {
        let ghost n = self.size as int;
        let ghost h = quotient_idx as int;
        let ghost x = run_head as int;
        let ghost slots = self.filter@;
        let ghost homes = self.homes@;
        let ghost r = self.r as nat;
        let ghost c = choose|c: int| run_head_at(homes, c, h, x);
        let ghost keys0 = keys@;
        proof {
            assert(step(n, x, 0) == x);
            assert(slot_ok(slots, homes, r, -1, x));
            if fwd(n, c, x) > 0 {
                assert(step(n, c, fwd(n, c, x) - 1) == prev_slot(n, x));
                assert(homes[step(n, c, fwd(n, c, x) - 1)] != -1 && rel(
                    homes,
                    c,
                    fwd(n, c, x) - 1,
                ) < fwd(n, c, h));
                lemma_barrier(slots, homes, r, -1, c, fwd(n, c, x) - 1);
                assert(step(n, c, fwd(n, c, h)) == h);
            }
            assert(!slots[x].continued);
            lemma_pow2_pos(self.q as nat);
            lemma_key_bits(quotient_idx as u64, self.r, slots[x].remainder, self.q as nat);
        }
        keys.push(((quotient_idx as u64) << self.r) | self.filter[run_head].remainder());
        let mut idx = self.next_index(run_head);
        let ghost mut k: int = 1;
        proof {
            assert(keys@ =~= keys0 + run_keys(slots, r, h, x, 1));
        }
        while self.filter[idx].is_continued()
            invariant
                table_ok(slots, homes, r, -1),
                slots == self.filter@,
                slots.len() == n,
                homes.len() == n,
                n == self.size,
                n == pow2(self.q as nat),
                self.q + self.r <= 64,
                1 <= self.q,
                1 <= self.r,
                r == self.r,
                n >= 2,
                0 <= x < n,
                0 <= h < n,
                h == quotient_idx,
                idx < n,
                1 <= k <= n,
                idx as int == (if k == n { x } else { step(n, x, k) }),
                !slots[x].continued,
                forall|j: int| 0 <= j < k ==> homes[#[trigger] step(n, x, j)] == h,
                forall|j: int|
                    1 <= j < k ==> slots[step(n, x, j - 1)].remainder <= (#[trigger] slots[step(
                        n,
                        x,
                        j,
                    )]).remainder,
                keys@ == keys0 + run_keys(slots, r, h, x, k),
            decreases n - k,
        {
            proof {
                assert(slot_ok(slots, homes, r, -1, idx as int));
                assert(prev_slot(n, idx as int) == step(n, x, k - 1));
                lemma_key_bits(quotient_idx as u64, self.r, slots[idx as int].remainder, self.q as nat);
            }
            keys.push(((quotient_idx as u64) << self.r) | self.filter[idx].remainder());
            proof {
                assert(keys@ =~= keys0 + run_keys(slots, r, h, x, k + 1));
            }
            idx = self.next_index(idx);
            proof {
                k = k + 1;
            }
        }
        proof {
            assert forall|p: int| 0 <= p < n implies (#[trigger] homes[p] == h <==> fwd(n, x, p)
                < k) by {
                if homes[p] == h {
                    lemma_run_complete(slots, homes, r, -1, c, h, x, k, p);
                }
                assert(step(n, x, fwd(n, x, p)) == p);
            }
            assert(run_is(homes, h, x, k));
            let rk = run_keys(slots, r, h, x, k);
            assert forall|i: int, j: int| 0 <= i <= j < rk.len() implies rk[i] <= rk[j] by {
                Self::lemma_run_sorted(slots, homes, r, self.q as nat, h, x, k, i, j);
            }
        }
    }

    /// The stored fingerprints in ascending order, duplicates included.
    #[verifier::rlimit(50)]
    pub fn collect_keys(&self) -> (keys: Vec<u64>)
        requires
            self.wf(),
        ensures
            keys@.to_multiset() == self@,
            ascending(keys@),
            keys@.len() == self.entries,
            forall|i: int|
                0 <= i < keys@.len() ==> (keys@[i] as int) / (pow2(self.r as nat) as int)
                    < self.size,
    {
        let mut keys = Vec::with_capacity(self.entries);
        let ghost n = self.size as int;
        let ghost slots = self.filter@;
        let ghost homes = self.homes@;
        let ghost r = self.r as nat;
        proof {
            keys@.to_multiset_ensures();
            vstd::multiset::lemma_multiset_empty_len(keys@.to_multiset());
            vstd::multiset::lemma_multiset_empty_len(self@);
            lemma_pow2_pos(self.q as nat);
            assert forall|p: int| 0 <= p < n implies -1 <= #[trigger] homes[p] < n by {
                assert(slot_ok(slots, homes, r, -1, p));
            }
            lemma_part_ends(slots, homes, r, 0);
        }
        if self.entries == 0 {
            return keys;
        }
        let size = self.size;
        for quotient_idx in 0..size
            invariant
                self.wf(),
                size == self.size,
                n == size,
                slots == self.filter@,
                homes == self.homes@,
                r == self.r,
                keys@.to_multiset() == stored(
                    slots,
                    part_homes(homes, quotient_idx as int, 0, 0),
                    r,
                    n,
                ),
                ascending(keys@),
                forall|i: int|
                    0 <= i < keys@.len() ==> (keys@[i] as int) / (pow2(r) as int)
                        < quotient_idx,
        {
            let ghost b = quotient_idx as int;
            if self.filter[quotient_idx].is_occupied() {
                proof {
                    assert(slot_ok(slots, homes, r, -1, b));
                    lemma_run_covers_home(slots, homes, r, -1, b);
                }
                let run_head = self.find_run_head(quotient_idx);
                let ghost keys0 = keys@;
                self.visit_run(run_head, quotient_idx, &mut keys);
                proof {
                    let x = run_head as int;
                    let k = choose|k: int| #[trigger]
                        run_is(homes, b, x, k) && keys@ == keys0 + run_keys(slots, r, b, x, k)
                            && ascending(run_keys(slots, r, b, x, k));
                    let rk = run_keys(slots, r, b, x, k);
                    assert forall|j: int| 0 <= j < k implies homes[#[trigger] step(n, x, j)]
                        == b by {
                        assert(fwd(n, x, step(n, x, j)) == j);
                    }
                    lemma_part_start(homes, b, 0, x);
                    lemma_part_run(slots, homes, r, b, x, k);
                    lemma_part_done(homes, b, x, k, 0);
                    vstd::seq_lib::lemma_multiset_commutative(keys0, rk);
                    assert forall|j: int| 0 <= j < k implies ((#[trigger] rk[j]) as int) / (pow2(
                        r,
                    ) as int) == b by {
                        assert(slot_ok(slots, homes, r, -1, step(n, x, j)));
                        lemma_fingerprint_bound(
                            b,
                            slots[step(n, x, j)].remainder,
                            self.q as nat,
                            r,
                        );
                    }
                    assert forall|i: int, j: int| 0 <= i <= j < keys@.len() implies keys@[i]
                        <= keys@[j] by {
                        if j >= keys0.len() && i < keys0.len() {
                            assert(keys@[j] == rk[j - keys0.len()]);
                            assert(keys@[i] == keys0[i]);
                            lemma_pow2_pos(r);
                            if keys@[i] > keys@[j] {
                                vstd::arithmetic::div_mod::lemma_div_is_ordered(
                                    keys@[j] as int,
                                    keys@[i] as int,
                                    pow2(r) as int,
                                );
                            }
                        } else if i >= keys0.len() {
                            assert(keys@[j] == rk[j - keys0.len()]);
                            assert(keys@[i] == rk[i - keys0.len()]);
                        } else {
                            assert(keys@[j] == keys0[j]);
                            assert(keys@[i] == keys0[i]);
                        }
                    }
                    assert forall|i: int| 0 <= i < keys@.len() implies (keys@[i] as int) / (pow2(
                        r,
                    ) as int) < b + 1 by {
                        if i >= keys0.len() {
                            assert(keys@[i] == rk[i - keys0.len()]);
                        } else {
                            assert(keys@[i] == keys0[i]);
                        }
                    }
                }
            } else {
                proof {
                    assert(slot_ok(slots, homes, r, -1, b));
                    assert forall|p: int| 0 <= p < homes.len() && #[trigger] homes[p]
                        == b implies fwd(n, 0, p) < 0 by {
                        assert(has_run(homes, b));
                    }
                    lemma_part_done(homes, b, 0, 0, 0);
                }
            }
        }
        proof {
            keys@.to_multiset_ensures();
        }
        keys
    }

    /// Rebuilds the filter with one more quotient bit: collects the stored
    /// fingerprints and inserts them into a table of twice the size.
    pub fn resize(&mut self)
        requires
            old(self).wf(),
            old(self).q + old(self).r < 64,
            old(self).q + 1 < usize::BITS,
        ensures
            old(self).regrown(*final(self)),
        decreases 1int,
    {
        let new_q = self.q + 1;
        let keys = self.collect_keys();
        let mut new_qf = QuotientFilter::new(new_q, self.r);
        let ghost bound = self.size as int;
        let ghost r = self.r as nat;
        let ghost mut hl: int = -1;
        proof {
            lemma_pow2_pos(self.q as nat);
            vstd::arithmetic::power2::lemma_pow2_unfold(new_q as nat);
            lemma_stored_bound(self.filter@, self.homes@, r, bound);
            assert(keys@.take(0) =~= Seq::<u64>::empty());
            keys@.take(0).to_multiset_ensures();
            vstd::multiset::lemma_multiset_empty_len(keys@.take(0).to_multiset());
            assert forall|p: int| 0 <= p < new_qf.size implies new_qf.homes@[p] == -1 by {
                if new_qf.homes@[p] != -1 {
                    lemma_stored_contains_any(new_qf.filter@, new_qf.homes@, r, new_qf.size as int, p);
                }
            }
        }
        let mut i: usize = 0;
        while i < keys.len()
            invariant
                new_qf.wf(),
                new_qf.q == new_q,
                new_qf.q == old(self).q + 1,
                new_qf.r == old(self).r,
                r == old(self).r,
                new_qf.size == 2 * bound,
                bound == old(self).size,
                bound == pow2(old(self).q as nat),
                0 <= i <= keys@.len(),
                keys@.len() == old(self).entries,
                keys@.len() <= bound,
                new_qf.entries == i,
                new_qf@ == keys@.take(i as int).to_multiset(),
                keys@.to_multiset() == old(self)@,
                ascending(keys@),
                forall|j: int|
                    0 <= j < keys@.len() ==> (keys@[j] as int) / (pow2(r) as int) < bound,
                new_qf.erect(bound, i as int, hl),
                i > 0 ==> hl == (keys@[i - 1] as int) / (pow2(r) as int),
                i == 0 ==> hl == -1,
                old(self).q + old(self).r < 64,
            decreases keys@.len() - i,
        {
            let key = keys[i];
            let ghost before = new_qf;
            proof {
                let kq = (key as int) / (pow2(r) as int);
                lemma_pow2_pos(r);
                assert(kq < bound);
                vstd::arithmetic::div_mod::lemma_small_mod(kq as nat, pow2(new_q as nat));
                vstd::arithmetic::div_mod::lemma_div_pos_is_pos(key as int, pow2(r) as int);
                assert(0 <= kq);
                assert(before.quotient_of(key) == kq);
                if i > 0 {
                    assert(keys@[i - 1] <= keys@[i as int]);
                    vstd::arithmetic::div_mod::lemma_div_is_ordered(
                        keys@[i - 1] as int,
                        key as int,
                        pow2(r) as int,
                    );
                }
                assert(hl <= kq);
                before.lemma_erect_admits(key, bound, i as int, hl);
                // the fingerprint is the key itself
                vstd::arithmetic::div_mod::lemma_fundamental_div_mod(key as int, pow2(r) as int);
                Self::lemma_split_parts(new_q as nat, r, key);
                lemma_fingerprint_bound(kq, before.remainder_of(key), new_q as nat, r);
                assert(pow2(r) * kq == kq * pow2(r)) by (nonlinear_arith);
                assert(before.fingerprint_of(key) == key);
            }
            new_qf.insert(key);
            proof {
                before.lemma_erect_step(new_qf, key, bound, i as int, hl);
                hl = before.quotient_of(key);
                assert(keys@.take(i + 1) =~= keys@.take(i as int).push(key));
                keys@.take(i as int).to_multiset_ensures();
            }
            i += 1;
        }
        proof {
            assert(keys@.take(i as int) =~= keys@);
        }
        *self = new_qf;
    }

    /// A new filter of the least size that is not below either filter's and
    /// has a slot for every fingerprint of both, filled by inserting this
    /// filter's fingerprints in ascending order and then the other's. Where
    /// every one of these insertions is admitted, the result is valid and
    /// stores the fingerprints of both.
    pub fn merge(&self, other: &Self) -> (merged: QuotientFilter)
        requires
            self.wf(),
            other.wf(),
            self.r == other.r,
            self.entries + other.entries <= pow2(Self::merge_limit(self.r as nat)),
        ensures
            merged.sound(),
            merged.r == self.r,
            Self::merged_q(
                self.q as nat,
                other.q as nat,
                (self.entries + other.entries) as nat,
                merged.q as nat,
            ),
            merged.entries == self.entries + other.entries,
            self.merges_with(other) ==> merged.wf() && merged@ == self@.add(other@),
    {
        let keys_self = self.collect_keys();
        let keys_other = other.collect_keys();
        let ghost limit = Self::merge_limit(self.r as nat);
        let ghost ok = self.merges_with(other);
        proof {
            Self::lemma_q_fits(self.q as nat, self.size);
            Self::lemma_q_fits(other.q as nat, other.size);
            lemma_usize_pow2_no_overflow(limit);
        }
        let total_entries = keys_self.len() + keys_other.len();
        let mut target_q = if self.q > other.q {
            self.q
        } else {
            other.q
        };
        let ghost q0 = target_q;
        proof {
            lemma_usize_pow2_no_overflow(target_q as nat);
            lemma_usize_shl_is_mul(1usize, target_q as usize);
        }
        let mut capacity = 1usize << (target_q as usize);
        while capacity < total_entries
            invariant
                q0 <= target_q <= limit,
                limit == Self::merge_limit(self.r as nat),
                limit < usize::BITS,
                limit < 64,
                capacity == pow2(target_q as nat),
                total_entries <= pow2(limit),
                target_q > q0 ==> pow2((target_q - 1) as nat) < total_entries,
            decreases limit - target_q,
        {
            proof {
                if target_q == limit {
                    assert(false);
                }
                lemma_usize_pow2_no_overflow((target_q + 1) as nat);
                lemma_usize_shl_is_mul(1usize, (target_q + 1) as usize);
            }
            target_q += 1;
            capacity = 1usize << (target_q as usize);
        }
        let mut merged = QuotientFilter::new(target_q, self.r);
        let ghost all = keys_self@ + keys_other@;
        proof {
            assert(merged.blank(target_q as nat, self.r as nat));
            assert(all.skip(0) =~= all);
            assert(keys_self@.take(0) =~= Seq::<u64>::empty());
            keys_self@.take(0).to_multiset_ensures();
            vstd::multiset::lemma_multiset_empty_len(keys_self@.take(0).to_multiset());
        }
        let mut i: usize = 0;
        while i < keys_self.len()
            invariant
                merged.sound(),
                merged.q == target_q,
                merged.r == self.r,
                merged.size == pow2(target_q as nat),
                total_entries <= merged.size,
                total_entries == keys_self@.len() + keys_other@.len(),
                0 <= i <= keys_self@.len(),
                merged.entries == i,
                all == keys_self@ + keys_other@,
                self.wf(),
                self.q <= target_q,
                target_q + self.r <= 64,
                forall|t: int|
                    0 <= t < keys_self@.len() ==> (keys_self@[t] as int) / (pow2(
                        self.r as nat,
                    ) as int) < self.size,
                ok ==> merged.wf() && merged.takes(all.skip(i as int)) && merged@
                    == keys_self@.take(i as int).to_multiset(),
            decreases keys_self@.len() - i,
        {
            let key = keys_self[i];
            let ghost before = merged;
            proof {
                assert(all.skip(i as int)[0] == key);
                assert(all.skip(i as int).drop_first() =~= all.skip(i + 1));
            }
            merged.place(key);
            proof {
                if ok {
                    Self::lemma_key_is_fingerprint(self, target_q as nat, key);
                    assert(keys_self@.take(i + 1) =~= keys_self@.take(i as int).push(key));
                    keys_self@.take(i as int).to_multiset_ensures();
                }
            }
            i += 1;
        }
        proof {
            assert(keys_self@.take(i as int) =~= keys_self@);
            assert(all.skip(i as int) =~= keys_other@);
            assert(keys_other@.skip(0) =~= keys_other@);
            assert(keys_other@.take(0) =~= Seq::<u64>::empty());
            keys_other@.take(0).to_multiset_ensures();
            vstd::multiset::lemma_multiset_empty_len(keys_other@.take(0).to_multiset());
            assert(self@.add(Multiset::<u64>::empty()) =~= self@);
        }
        let mut j: usize = 0;
        while j < keys_other.len()
            invariant
                merged.sound(),
                merged.q == target_q,
                merged.r == self.r,
                merged.size == pow2(target_q as nat),
                total_entries <= merged.size,
                total_entries == keys_self@.len() + keys_other@.len(),
                0 <= j <= keys_other@.len(),
                merged.entries == keys_self@.len() + j,
                other.wf(),
                other.q <= target_q,
                self.r == other.r,
                target_q + self.r <= 64,
                forall|t: int|
                    0 <= t < keys_other@.len() ==> (keys_other@[t] as int) / (pow2(
                        other.r as nat,
                    ) as int) < other.size,
                ok ==> merged.wf() && merged.takes(keys_other@.skip(j as int)) && merged@
                    == self@.add(keys_other@.take(j as int).to_multiset()),
            decreases keys_other@.len() - j,
        {
            let key = keys_other[j];
            let ghost before = merged;
            proof {
                assert(keys_other@.skip(j as int)[0] == key);
                assert(keys_other@.skip(j as int).drop_first() =~= keys_other@.skip(j + 1));
            }
            merged.place(key);
            proof {
                if ok {
                    Self::lemma_key_is_fingerprint(other, target_q as nat, key);
                    assert(keys_other@.take(j + 1) =~= keys_other@.take(j as int).push(key));
                    keys_other@.take(j as int).to_multiset_ensures();
                    assert(self@.add(keys_other@.take(j as int).to_multiset()).insert(key)
                        =~= self@.add(keys_other@.take(j as int).to_multiset().insert(key)));
                }
            }
            j += 1;
        }
        proof {
            assert(keys_other@.take(j as int) =~= keys_other@);
        }
        merged
    }

    /// Moves the remainders from slot `insert_pos` up to the next empty slot
    /// one slot forward: a moved remainder keeps its continued bit and becomes
    /// shifted; occupied bits stay with their buckets. Slot `insert_pos`
    /// itself is left as it is, to be overwritten.
    fn make_room(&mut self, insert_pos: usize)
        requires
            old(self).filter@.len() == old(self).size,
            old(self).size >= 2,
            insert_pos < old(self).size,
            exists|e: int| 0 <= e < old(self).size && (#[trigger] old(self).filter@[e]).is_vacant(),
        ensures
            final(self).q == old(self).q,
            final(self).r == old(self).r,
            final(self).size == old(self).size,
            final(self).entries == old(self).entries,
            final(self).homes == old(self).homes,
            final(self).anchor == old(self).anchor,
            exists|len: int|
                gap_after(old(self).filter@, insert_pos as int, len) && final(self).filter@
                    == #[trigger] moving_slots(old(self).filter@, insert_pos as int, len, 0),
    {
        let ghost s0 = self.filter@;
        let ghost n = self.size as int;
        let ghost ip = insert_pos as int;
        let ghost e = choose|e: int| 0 <= e < self.size && (#[trigger] self.filter@[e]).is_vacant();
        // find the empty slot that takes up the shift
        let mut empty_pos = insert_pos;
        let ghost mut len: int = 0;
        proof {
            assert(step(n, ip, 0) == ip);
        }
        while !self.filter[empty_pos].is_empty()
            invariant
                self.filter@ == s0,
                s0.len() == n,
                n == self.size,
                0 <= ip < n,
                0 <= e < n,
                s0[e].is_vacant(),
                empty_pos < n,
                0 <= len <= fwd(n, ip, e),
                empty_pos as int == step(n, ip, len),
                forall|j: int| 0 <= j < len ==> !(#[trigger] s0[step(n, ip, j)]).is_vacant(),
            decreases fwd(n, ip, e) - len,
        {
            empty_pos = self.next_index(empty_pos);
            proof {
                len = len + 1;
            }
        }
        // move the remainders from the empty slot back to the insertion slot
        let mut curr = empty_pos;
        let ghost mut jc: int = len;
        proof {
            assert(self.filter@ =~= moving_slots(s0, ip, len, len));
        }
        while curr != insert_pos
            invariant
                s0.len() == n,
                self.filter@.len() == n,
                n == self.size,
                n >= 2,
                0 <= ip < n,
                insert_pos as int == ip,
                curr < n,
                0 <= jc <= len < n,
                curr as int == step(n, ip, jc),
                self.q == old(self).q,
                self.r == old(self).r,
                self.size == old(self).size,
                self.entries == old(self).entries,
                self.homes == old(self).homes,
                self.anchor == old(self).anchor,
                self.filter@ == moving_slots(s0, ip, len, jc),
            decreases jc,
        {
            let prev = self.prev_index(curr);
            let prev_slot = self.filter[prev].clone();
            self.filter[curr].set_remainder(prev_slot.remainder());
            self.filter[curr].set_continued(prev_slot.is_continued());
            self.filter[curr].set_shifted(true);
            proof {
                assert(prev as int == step(n, ip, jc - 1));
                assert(fwd(n, ip, curr as int) == jc);
                assert(fwd(n, ip, prev as int) == jc - 1);
                assert(self.filter@ =~= moving_slots(s0, ip, len, jc - 1));
                jc = jc - 1;
            }
            curr = prev;
        }
        proof {
            assert(gap_after(s0, ip, len));
        }
    }

    /// Stores the fingerprint of `key`, after doubling the table if it is
    /// full. Of a valid filter that admits the key, the result is valid and
    /// holds the fingerprint once more; of any valid filter, the table is
    /// rewritten as `placed` describes. A filter that is not full takes the
    /// key whatever its table holds.
    pub fn insert(&mut self, key: u64)
        requires
            old(self).sound(),
            old(self).entries == old(self).size ==> old(self).wf() && old(self).q + old(self).r
                < 64 && old(self).q + 1 < usize::BITS,
        ensures
            final(self).sound(),
            final(self).r == old(self).r,
            final(self).entries == old(self).entries + 1,
            final(self).q == (if old(self).entries < old(self).size {
                old(self).q
            } else {
                (old(self).q + 1) as u64
            }),
            old(self).wf() && old(self).entries < old(self).size ==> old(self).placed(
                key,
                *final(self),
            ),
            old(self).entries == old(self).size ==> exists|mid: QuotientFilter| #[trigger]
                old(self).regrown(mid) && mid.placed(key, *final(self)),
        decreases (if old(self).entries == old(self).size { 2int } else { 0int }),
    {
        proof {
            lemma_pow2_pos(self.q as nat);
            lemma_used_bound(self.filter@, self.size as int);
        }
        if self.entries == self.size {
            self.resize();
        }
        self.place(key);
    }

    /// Stores the fingerprint of `key` in a filter with a slot that is all
    /// zero: in the key's home slot if that is empty; else in the run of its
    /// bucket, before the first remainder that is not smaller, after moving
    /// the remainders from there to the next empty slot one slot forward.
    /// Takes one more slot into use whatever the table holds; of a valid
    /// filter the result is what `placed` describes.
    #[verifier::rlimit(100)]
    fn place(&mut self, key: u64)
        requires
            old(self).sound(),
            old(self).entries < old(self).size,
        ensures
            final(self).sound(),
            final(self).q == old(self).q,
            final(self).r == old(self).r,
            final(self).size == old(self).size,
            final(self).entries == old(self).entries + 1,
            old(self).wf() ==> old(self).placed(key, *final(self)),
    {
        let ghost pre = *self;
        let ghost ok = pre.wf();
        let (quotient, remainder) = self.split(key);
        let q_idx = quotient as usize;
        let ghost n = self.size as int;
        let ghost h = q_idx as int;
        let ghost r = self.r as nat;
        let ghost t0 = self.filter@;
        let ghost h0 = self.homes@;
        let ghost s0 = marked(t0, h);
        proof {
            lemma_used_gap(t0, n);
            assert(h == pre.quotient_of(key));
            assert(remainder == pre.remainder_of(key));
            if ok {
                pre.lemma_vacancy();
                lemma_vacant_iff(t0, h0, r, -1, h);
                lemma_mark(t0, h0, r, h);
            }
        }
        let ghost e = choose|e: int| 0 <= e < n && (#[trigger] t0[e]).is_vacant();
        if self.filter[q_idx].is_empty() {
            self.filter[q_idx].set_remainder(remainder);
            self.filter[q_idx].set_occupied(true);
            self.entries += 1;
            self.homes = Ghost(placed_homes(h0, h, h, 0));
            proof {
                lemma_used_step(t0, self.filter@, n, h);
                if ok {
                    assert(self.filter@ =~= after_slots(s0, h0, h, h, remainder, h, 0));
                    assert(place_of(s0, h0, h, remainder, h, h, 0));
                    pre.lemma_placed(*self, key, h, h, 0);
                }
            }
            return ;
        }
        let already_occupied = self.filter[q_idx].is_occupied();
        self.filter[q_idx].set_occupied(true);
        proof {
            assert(self.filter@ =~= s0);
            assert(s0[e].is_vacant());
            if ok {
                assert(slot_ok(t0, h0, r, -1, h));
                assert(already_occupied == has_run(h0, h));
            }
        }
        let run_head = self.find_run_head(q_idx);
        let ghost x = run_head as int;
        let ghost c = choose|c: int| run_head_at(h0, c, h, x);
        let mut insert_pos = run_head;
        let ghost mut ki: int = 0;
        proof {
            assert(step(n, x, 0) == x);
        }
        if !self.filter[insert_pos].is_empty() && self.filter[insert_pos].remainder() < remainder {
            insert_pos = self.next_index(insert_pos);
            proof {
                ki = 1;
            }
            while self.filter[insert_pos].is_continued() && self.filter[insert_pos].remainder()
                < remainder
                invariant
                    self.filter@ == s0,
                    s0.len() == n,
                    n == self.size,
                    0 <= x < n,
                    0 <= e < n,
                    s0[e].is_vacant(),
                    insert_pos < n,
                    1 <= ki <= fwd(n, x, e),
                    insert_pos as int == step(n, x, ki),
                    forall|j: int|
                        1 <= j < ki ==> (#[trigger] s0[step(n, x, j)]).continued && s0[step(
                            n,
                            x,
                            j,
                        )].remainder < remainder,
                decreases fwd(n, x, e) - ki,
            {
                insert_pos = self.next_index(insert_pos);
                proof {
                    ki = ki + 1;
                }
            }
            proof {
                assert(fwd(n, x, insert_pos as int) == ki);
                assert(scan_stops(s0, x, remainder, insert_pos as int));
            }
        } else {
            proof {
                assert(fwd(n, x, x) == 0);
                assert(scan_stops(s0, x, remainder, x));
            }
        }
        let ghost ip = insert_pos as int;
        let inserting_at_head = insert_pos == run_head;
        proof {
            assert(fwd(n, x, ip) == ki);
        }
        if self.filter[insert_pos].is_empty() {
            self.filter[insert_pos].set_remainder(remainder);
            self.filter[insert_pos].set_shifted(insert_pos != q_idx);
            self.filter[insert_pos].set_continued(already_occupied && !inserting_at_head);
            self.entries += 1;
            self.homes = Ghost(placed_homes(h0, h, ip, 0));
            self.anchor = Ghost(c);
            proof {
                assert(step(n, ip, 0) == ip);
                assert(moving_slots(s0, ip, 0, 0) =~= s0);
                assert(self.filter@ =~= written(
                    s0,
                    ip,
                    remainder,
                    ip != h,
                    already_occupied && !inserting_at_head,
                    false,
                ));
                assert(gap_after(s0, ip, 0));
                lemma_used_written(
                    t0,
                    h,
                    remainder,
                    ip,
                    0,
                    already_occupied && !inserting_at_head,
                    false,
                    self.filter@,
                );
                if ok {
                    lemma_written_vacant(s0, h0, h, x, remainder, ip);
                    assert(place_of(s0, h0, h, remainder, x, ip, 0));
                    pre.lemma_placed(*self, key, x, ip, 0);
                }
            }
            return ;
        }
        self.make_room(insert_pos);
        let ghost len = choose|len: int|
            gap_after(s0, ip, len) && self.filter@ == moving_slots(s0, ip, len, 0);
        let ghost f1 = self.filter@;
        self.filter[insert_pos].set_remainder(remainder);
        self.filter[insert_pos].set_shifted(insert_pos != q_idx);
        self.filter[insert_pos].set_continued(already_occupied && !inserting_at_head);
        let ghost f2 = self.filter@;
        proof {
            assert(f2 =~= f1.update(
                ip,
                Slot {
                    remainder,
                    shifted: ip != h,
                    continued: already_occupied && !inserting_at_head,
                    occupied: f1[ip].occupied,
                },
            ));
        }
        if inserting_at_head && already_occupied {
            let next = self.next_index(insert_pos);
            self.filter[next].set_continued(true);
            proof {
                assert(self.filter@ =~= f2.update(
                    next as int,
                    Slot { continued: true, ..f2[next as int] },
                ));
            }
        }
        self.entries += 1;
        self.homes = Ghost(placed_homes(h0, h, ip, len));
        self.anchor = Ghost(c);
        proof {
            assert(len >= 1);
            assert(self.filter@ == written(
                f1,
                ip,
                remainder,
                ip != h,
                already_occupied && !inserting_at_head,
                inserting_at_head && already_occupied,
            ));
            lemma_used_written(
                t0,
                h,
                remainder,
                ip,
                len,
                already_occupied && !inserting_at_head,
                inserting_at_head && already_occupied,
                self.filter@,
            );
            if ok {
                lemma_written(s0, h0, h, x, remainder, ip, len, f1);
                assert(place_of(s0, h0, h, remainder, x, ip, len));
                pre.lemma_placed(*self, key, x, ip, len);
            }
        }
    }

    /// Whether the fingerprint of `key` is stored.
    #[verifier::rlimit(40)]
    pub fn lookup(&self, key: u64) -> (found: bool)
        requires
            self.wf(),
        ensures
            found == self@.contains(Self::spec_fingerprint(self.q as nat, self.r as nat, key)),
    {
        let (quotient, remainder) = self.split(key);
        let q_idx = quotient as usize;
        let ghost n = self.size as int;
        let ghost h = q_idx as int;
        let ghost slots = self.filter@;
        let ghost homes = self.homes@;
        let ghost r = self.r as nat;
        let ghost f = Self::spec_fingerprint(self.q as nat, self.r as nat, key);
        proof {
            lemma_stored_contains(slots, homes, r, n, f);
            assert(slot_ok(slots, homes, r, -1, h));
            lemma_fingerprint_bound(h, remainder, self.q as nat, r);
            assert forall|p: int| 0 <= p < n && homes[p] != -1 implies (fingerprint(
                homes[p],
                slots[p].remainder,
                r,
            ) == f <==> homes[p] == h && slots[p].remainder == remainder) by {
                assert(slot_ok(slots, homes, r, -1, p));
                lemma_fingerprint_bound(homes[p], slots[p].remainder, self.q as nat, r);
            }
            assert(self@.contains(f) <==> holds(slots, homes, h, remainder)) by {
                if self@.contains(f) {
                    let p = choose|p: int|
                        0 <= p < n && #[trigger] homes[p] != -1 && fingerprint(
                            homes[p],
                            slots[p].remainder,
                            r,
                        ) == f;
                    assert(homes[p] == h && slots[p].remainder == remainder);
                }
                if holds(slots, homes, h, remainder) {
                    let p = choose|p: int|
                        0 <= p < homes.len() && #[trigger] homes[p] == h && slots[p].remainder
                            == remainder;
                    assert(homes[p] != -1);
                }
            }
        }
        if !self.filter[q_idx].is_occupied() {
            proof {
                if holds(slots, homes, h, remainder) {
                    let p = choose|p: int|
                        0 <= p < homes.len() && #[trigger] homes[p] == h && slots[p].remainder
                            == remainder;
                    assert(has_run(homes, h));
                }
            }
            return false;
        }
        proof {
            lemma_run_covers_home(slots, homes, r, -1, h);
        }
        let run_head = self.find_run_head(q_idx);
        let ghost x = run_head as int;
        let ghost c = choose|c: int| run_head_at(homes, c, h, x);
        if self.filter[run_head].remainder() == remainder {
            proof {
                assert(homes[x] == h);
            }
            return true;
        }
        let mut idx = self.next_index(run_head);
        let ghost mut k: int = 1;
        proof {
            assert(step(n, x, 0) == x);
            assert(slot_ok(slots, homes, r, -1, x));
            if fwd(n, c, x) > 0 {
                assert(step(n, c, fwd(n, c, x) - 1) == prev_slot(n, x));
                assert(homes[step(n, c, fwd(n, c, x) - 1)] != -1 && rel(
                    homes,
                    c,
                    fwd(n, c, x) - 1,
                ) < fwd(n, c, h));
                lemma_barrier(slots, homes, r, -1, c, fwd(n, c, x) - 1);
                assert(step(n, c, fwd(n, c, h)) == h);
            }
            assert(!slots[x].continued);
        }
        while self.filter[idx].is_continued()
            invariant
                table_ok(slots, homes, r, -1),
                slots == self.filter@,
                slots.len() == n,
                homes.len() == n,
                n == self.size,
                n >= 2,
                0 <= x < n,
                0 <= h < n,
                idx < n,
                1 <= k <= n,
                self@.contains(f) <==> holds(slots, homes, h, remainder),
                f == Self::spec_fingerprint(self.q as nat, self.r as nat, key),
                idx as int == (if k == n { x } else { step(n, x, k) }),
                !slots[x].continued,
                forall|j: int|
                    0 <= j < k ==> homes[#[trigger] step(n, x, j)] == h && slots[step(
                        n,
                        x,
                        j,
                    )].remainder != remainder,
            decreases n - k,
        {
            proof {
                assert(slot_ok(slots, homes, r, -1, idx as int));
                assert(prev_slot(n, idx as int) == step(n, x, k - 1));
            }
            if self.filter[idx].remainder() == remainder {
                proof {
                    assert(homes[idx as int] == h);
                }
                return true;
            }
            idx = self.next_index(idx);
            proof {
                k = k + 1;
            }
        }
        proof {
            assert forall|p: int| 0 <= p < n && homes[p] == h implies slots[p].remainder
                != remainder by {
                lemma_run_complete(slots, homes, r, -1, c, h, x, k, p);
                assert(step(n, x, fwd(n, x, p)) == p);
            }
        }
        false
    }

    /// The slot before `idx`; before the first slot comes the last.
    pub fn prev_index(&self, idx: usize) -> (p: usize)
        requires
            idx < self.size,
        ensures
            p == prev_slot(self.size as int, idx as int),
    {
        if idx == 0 {
            self.size - 1
        } else {
            idx - 1
        }
    }

    /// The slot after `idx`; after the last slot comes the first.
    pub fn next_index(&self, idx: usize) -> (p: usize)
        requires
            idx < self.size,
        ensures
            p == next_slot(self.size as int, idx as int),
    {
        if idx == self.size - 1 {
            0
        } else {
            idx + 1
        }
    }
}

} // verus!
