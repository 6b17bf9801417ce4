//! Lemmas about a whole filter: that a filter with room has an empty slot,
//! that insertion leaves what `placed` describes, and that fingerprints put
//! in in ascending order into a table of twice the size are admitted.

use vstd::prelude::*;
use vstd::arithmetic::div_mod::lemma_breakdown;
use vstd::arithmetic::power2::{
    lemma_pow2_adds, lemma_pow2_pos, lemma_pow2_strictly_increases, pow2,
};
use crate::quotient_filter::collecting::run_keys;
use crate::quotient_filter::layout::{
    fingerprint, fwd, has_run, in_use, lemma_barrier, lemma_fingerprint_bound, lemma_stored_agree,
    lemma_stored_full, lemma_stored_update, lemma_vacant_iff, prev_slot, run_head_at, slot_ok,
    step, table_ok,
};
use crate::quotient_filter::placing::{
    after_slots, lemma_mark, lemma_place, lemma_place_found, lemma_place_vacant,
    lemma_stored_placed, marked, place_of, placed_homes,
};
use crate::quotient_filter::slot::Slot;
use crate::quotient_filter::QuotientFilter;

verus! {

impl QuotientFilter {
    /// In such a filter the next fingerprint in ascending order is admitted.
    pub proof fn lemma_erect_admits(&self, key: u64, bound: int, i: int, hl: int)
        requires
            self.wf(),
            self.erect(bound, i, hl),
            hl <= self.quotient_of(key) < self.size,
        ensures
            self.admits(key),
    {
        let n = self.size as int;
        let r = self.r as nat;
        let h = self.quotient_of(key);
        let homes = self.homes@;
        let slots = self.filter@;
        if homes[h] != -1 && !has_run(homes, h) {
            assert forall|c: int, x: int| #[trigger] run_head_at(homes, c, h, x) implies homes[x]
                == -1 by {
                if homes[x] != -1 {
                    let d = fwd(n, c, h);
                    let ro = fwd(n, c, x);
                    assert(homes[c] != -1);
                    assert(has_run(homes, c));
                    assert(c < h);
                    assert(step(n, c, ro) == x);
                    if ro >= n - 1 - c {
                        assert(step(n, c, n - 1 - c) == n - 1);
                        if ro > n - 1 - c {
                            assert(homes[step(n, c, n - 1 - c)] != -1);
                        }
                        assert(homes[n - 1] != -1);
                    }
                    lemma_barrier(slots, homes, r, -1, c, ro);
                    assert(homes[x] >= h);
                    assert(homes[x] == h);
                    assert(has_run(homes, h));
                }
            }
        }
    }

    /// Putting the next fingerprint in keeps the filter in that state.
    #[verifier::rlimit(50)]
    pub proof fn lemma_erect_step(
        &self,
        post: QuotientFilter,
        key: u64,
        bound: int,
        i: int,
        hl: int,
    )
        requires
            self.wf(),
            self.entries < self.size,
            self.erect(bound, i, hl),
            hl <= self.quotient_of(key) < bound,
            bound + i + 1 <= self.size,
            self.placed(key, post),
        ensures
            post.erect(bound, i + 1, self.quotient_of(key)),
    {
        let n = self.size as int;
        let r = self.r as nat;
        let h = self.quotient_of(key);
        let rk = self.remainder_of(key);
        let h0 = self.homes@;
        let t0 = self.filter@;
        let s0 = marked(t0, h);
        self.lemma_erect_admits(key, bound, i, hl);
        lemma_mark(t0, h0, r, h);
        let (x, ip, len) = choose|x: int, ip: int, len: int| #[trigger]
            place_of(s0, h0, h, rk, x, ip, len) && post.filter@ == after_slots(
                s0,
                h0,
                h,
                x,
                rk,
                ip,
                len,
            ) && (self.admits(key) ==> post.homes@ == placed_homes(h0, h, ip, len));
        let h1 = post.homes@;
        // the slots that insertion walks over lie in a row that ends before `bound + i`
        assert(h <= ip && ip + len < bound + i && step(n, ip, len) == ip + len) by {
            if h0[h] != -1 {
                let c = choose|c: int| run_head_at(h0, c, h, x);
                let ro = fwd(n, c, x);
                let ki = fwd(n, x, ip);
                assert(h0[c] != -1);
                assert(c <= h);
                assert(step(n, c, ro) == x);
                assert(step(n, x, ki) == ip);
                assert(step(n, x, 0) == x);
                assert(step(n, ip, 0) == ip);
                lemma_vacant_iff(s0, h0, r, h, x);
                lemma_vacant_iff(s0, h0, r, h, ip);
                if c + ro >= n {
                    assert(step(n, c, n - 1 - c) == n - 1);
                    assert(h0[step(n, c, n - 1 - c)] != -1);
                }
                assert(x == c + ro);
                if ro > 0 {
                    assert(h0[step(n, c, ro - 1)] != -1);
                    assert(step(n, c, ro - 1) == x - 1);
                }
                assert forall|j: int| 0 <= j < ki implies h0[#[trigger] step(n, x, j)] != -1 by {
                    if j > 0 {
                        assert(s0[step(n, x, j)].continued);
                        assert(slot_ok(s0, h0, r, h, step(n, x, j)));
                    }
                }
                if x + ki >= n {
                    assert(step(n, x, n - 1 - x) == n - 1);
                    assert(h0[step(n, x, n - 1 - x)] != -1);
                }
                assert(ip == x + ki);
                if ki > 0 {
                    assert(h0[step(n, x, ki - 1)] != -1);
                    assert(step(n, x, ki - 1) == ip - 1);
                }
                assert forall|j: int| 0 <= j < len implies h0[#[trigger] step(n, ip, j)]
                    != -1 by {
                    assert(!s0[step(n, ip, j)].is_vacant());
                    lemma_vacant_iff(s0, h0, r, h, step(n, ip, j));
                }
                if ip + len >= n {
                    assert(step(n, ip, n - 1 - ip) == n - 1);
                    assert(h0[step(n, ip, n - 1 - ip)] != -1);
                }
                if len > 0 {
                    assert(h0[step(n, ip, len - 1)] != -1);
                    assert(step(n, ip, len - 1) == ip + len - 1);
                }
            }
        }
        assert forall|p: int| 0 <= p < n && #[trigger] h1[p] != -1 implies h1[p] <= p && h1[p]
            <= h && p + 1 < bound + i + 1 by {
            let j = fwd(n, ip, p);
            if j == 0 {
            } else if j <= len {
                assert(p == ip + j);
                assert(prev_slot(n, p) == p - 1);
                assert(h0[p - 1] != -1);
            } else {
                assert(h0[p] != -1);
            }
        }
    }

    /// The filter that insertion leaves is the one that `placed` describes.
    pub proof fn lemma_placed(&self, post: QuotientFilter, key: u64, x: int, ip: int, len: int)
        requires
            self.wf(),
            self.entries < self.size,
            post.q == self.q,
            post.r == self.r,
            post.size == self.size,
            post.entries == self.entries + 1,
            place_of(
                marked(self.filter@, self.quotient_of(key)),
                self.homes@,
                self.quotient_of(key),
                self.remainder_of(key),
                x,
                ip,
                len,
            ),
            post.filter@ == after_slots(
                marked(self.filter@, self.quotient_of(key)),
                self.homes@,
                self.quotient_of(key),
                x,
                self.remainder_of(key),
                ip,
                len,
            ),
            post.homes@ == placed_homes(self.homes@, self.quotient_of(key), ip, len),
            post.entries == in_use(post.filter@, post.size as int),
            self.homes@[self.quotient_of(key)] == -1 ==> post.anchor@ == self.anchor@,
            self.homes@[self.quotient_of(key)] != -1 ==> run_head_at(
                self.homes@,
                post.anchor@,
                self.quotient_of(key),
                x,
            ),
        ensures
            self.placed(key, post),
    {
        let n = self.size as int;
        let r = self.r as nat;
        let h = self.quotient_of(key);
        let rk = self.remainder_of(key);
        let t0 = self.filter@;
        let h0 = self.homes@;
        let s0 = marked(t0, h);
        let s1 = post.filter@;
        let h1 = post.homes@;
        let fp = self.fingerprint_of(key);
        lemma_pow2_pos(self.q as nat);
        lemma_pow2_pos(r);
        assert(0 <= h < n && rk < pow2(r) && fp == fingerprint(h, rk, r)) by {
            Self::lemma_split_parts(self.q as nat, r, key);
        }
        self.lemma_vacancy();
        lemma_mark(t0, h0, r, h);
        if self.admits(key) {
            if h0[h] == -1 {
                lemma_place_vacant(t0, h0, r, h, rk);
                assert(h1 =~= h0.update(h, h));
                assert(s1 =~= t0.update(h, s1[h]));
                lemma_stored_update(t0, h0, r, n, h, s1[h], h);
            } else {
                let c = post.anchor@;
                lemma_place_found(s0, h0, r, c, h, x, rk, ip, len);
                lemma_place(s0, h0, r, c, h, x, rk, ip, len);
                lemma_stored_placed(s0, h0, r, h, x, rk, ip, len);
                lemma_stored_agree(s0, t0, h0, r, n);
            }
            assert(post@ == self@.insert(fp));
            vstd::multiset::lemma_insert_len(self@, fp);
        }
    }

    /// The quotient of a key is a bucket, its remainder has `r` bits, and
    /// together they make up the key's fingerprint.
    pub proof fn lemma_split_parts(q: nat, r: nat, key: u64)
        requires
            q + r <= 64,
        ensures
            0 <= Self::spec_split(q, r, key).0 < pow2(q),
            0 <= Self::spec_split(q, r, key).1 < pow2(r),
            fingerprint(Self::spec_split(q, r, key).0, Self::spec_split(q, r, key).1 as u64, r)
                == Self::spec_fingerprint(q, r, key),
    {
        let p = pow2(r) as int;
        let qq = pow2(q) as int;
        lemma_pow2_pos(q);
        lemma_pow2_pos(r);
        lemma_pow2_adds(r, q);
        lemma_breakdown(key as int, p, qq);
        let home = (key as int / p) % qq;
        let rem = key as int % p;
        vstd::arithmetic::power2::lemma2_to64();
        vstd::arithmetic::power2::lemma2_to64_rest();
        if r < 64 {
            lemma_pow2_strictly_increases(r, 64);
        }
        lemma_fingerprint_bound(home, rem as u64, q, r);
        assert(home * p == p * home) by (nonlinear_arith);
    }

    /// A table of `2^q` slots whose size is a `usize` has fewer quotient bits than a `usize` has bits.
    pub proof fn lemma_q_fits(q: nat, size: usize)
        requires
            size == pow2(q),
        ensures
            q < usize::BITS,
    {
        if q >= usize::BITS {
            vstd::arithmetic::power2::lemma2_to64();
            vstd::arithmetic::power2::lemma2_to64_rest();
            if q > usize::BITS {
                lemma_pow2_strictly_increases(usize::BITS as nat, q);
            }
        }
    }

    /// A fingerprint stored in a filter is its own fingerprint in a filter
    /// with the same remainder bits and at least as many quotient bits.
    pub proof fn lemma_key_is_fingerprint(from: &QuotientFilter, q: nat, key: u64)
        requires
            from.wf(),
            from.q <= q,
            q + from.r <= 64,
            (key as int) / (pow2(from.r as nat) as int) < from.size,
        ensures
            Self::spec_fingerprint(q, from.r as nat, key) == key,
    {
        let r = from.r as nat;
        lemma_pow2_pos(r);
        lemma_pow2_pos(q);
        lemma_pow2_adds(r, q);
        if from.q < q {
            lemma_pow2_strictly_increases(from.q as nat, q);
        }
        let p = pow2(r) as int;
        let kq = key as int / p;
        vstd::arithmetic::div_mod::lemma_fundamental_div_mod(key as int, p);
        vstd::arithmetic::div_mod::lemma_mod_bound(key as int, p);
        assert(key < p * pow2(q)) by (nonlinear_arith)
            requires
                key == p * kq + key as int % p,
                0 <= key as int % p < p,
                kq < pow2(q),
        ;
        vstd::arithmetic::div_mod::lemma_small_mod(key as nat, pow2(q + r));
    }

    /// A filter with fewer entries than slots has an empty slot.
    pub proof fn lemma_vacancy(&self)
        requires
            self.wf(),
            self.entries < self.size,
        ensures
            self.has_vacancy(),
    {
        if !self.has_vacancy() {
            assert forall|p: int| 0 <= p < self.size implies self.homes@[p] != -1 by {
                if self.homes@[p] == -1 {
                    assert(self.has_vacancy());
                }
            }
            lemma_stored_full(self.filter@, self.homes@, self.r as nat, self.size as int);
        }
    }

    /// Within a run the fingerprints do not decrease.
    pub proof fn lemma_run_sorted(
        slots: Seq<Slot>,
        homes: Seq<int>,
        r: nat,
        q: nat,
        h: int,
        x: int,
        k: int,
        i: int,
        j: int,
    )
        requires
            table_ok(slots, homes, r, -1),
            homes.len() == pow2(q),
            q + r <= 64,
            0 <= x < homes.len(),
            0 <= h < homes.len(),
            0 <= i <= j < k <= homes.len(),
            forall|j: int| 0 <= j < k ==> homes[#[trigger] step(homes.len() as int, x, j)] == h,
            forall|j: int|
                1 <= j < k ==> slots[step(homes.len() as int, x, j - 1)].remainder <= (
                #[trigger] slots[step(homes.len() as int, x, j)]).remainder,
        ensures
            run_keys(slots, r, h, x, k)[i] <= run_keys(slots, r, h, x, k)[j],
        decreases j - i,
    {
        let n = homes.len() as int;
        assert(slot_ok(slots, homes, r, -1, step(n, x, i)));
        assert(slot_ok(slots, homes, r, -1, step(n, x, j)));
        assert(homes[step(n, x, i)] == h);
        assert(homes[step(n, x, j)] == h);
        lemma_fingerprint_bound(h, slots[step(n, x, i)].remainder, q, r);
        lemma_fingerprint_bound(h, slots[step(n, x, j)].remainder, q, r);
        if i < j {
            Self::lemma_run_sorted(slots, homes, r, q, h, x, k, i, j - 1);
            assert(slot_ok(slots, homes, r, -1, step(n, x, j - 1)));
            assert(homes[step(n, x, j - 1)] == h);
            lemma_fingerprint_bound(h, slots[step(n, x, j - 1)].remainder, q, r);
            assert(slots[step(n, x, j - 1)].remainder <= slots[step(n, x, j)].remainder);
        }
    }
}

} // verus!
