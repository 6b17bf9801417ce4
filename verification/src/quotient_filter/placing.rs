//! What writing one more remainder into the table does to the layout, and why
//! the result is again a valid layout.

use vstd::prelude::*;
use vstd::arithmetic::power2::pow2;
use crate::quotient_filter::layout::{
    fingerprint, fwd, has_run, is_barrier, lemma_back_step, lemma_barrier, lemma_insert_cancel,
    in_use, lemma_stored_agree, lemma_stored_update, lemma_used_step, lemma_vacant_iff, next_slot,
    prev_slot, rel, run_head_at, slot_ok, step, stored, table_ok,
};
use crate::quotient_filter::slot::Slot;

verus! {

/// The table with the occupied bit of bucket `h` set.
pub open spec fn marked(s: Seq<Slot>, h: int) -> Seq<Slot> {
    s.update(h, Slot { occupied: true, ..s[h] })
}

/// Where the search for the place of `rk` in the run that starts at `x` ends:
/// at `x` itself unless `x` holds a smaller remainder, else at the first slot
/// after `x` that is not a continued slot with a smaller remainder.
pub open spec fn scan_stops(s0: Seq<Slot>, x: int, rk: u64, ip: int) -> bool {
    let n = s0.len() as int;
    let ki = fwd(n, x, ip);
    if s0[x].is_vacant() || s0[x].remainder >= rk {
        ip == x
    } else {
        &&& ki >= 1
        &&& forall|j: int|
            1 <= j < ki ==> (#[trigger] s0[step(n, x, j)]).continued && s0[step(n, x, j)].remainder
                < rk
        &&& !(s0[ip].continued && s0[ip].remainder < rk)
    }
}

/// The `len` slots from `ip` on are in use and the next one is all zero.
pub open spec fn gap_after(s0: Seq<Slot>, ip: int, len: int) -> bool {
    let n = s0.len() as int;
    &&& 0 <= len < n
    &&& forall|j: int| 0 <= j < len ==> !(#[trigger] s0[step(n, ip, j)]).is_vacant()
    &&& s0[step(n, ip, len)].is_vacant()
}

/// How insertion picks its slots in the table `s0`, in which the occupied bit
/// of the key's bucket `h` is already set: into an empty home slot directly;
/// else from the start `x` of the bucket's run to the insertion slot `ip`, from
/// where `len` remainders move forward.
pub open spec fn place_of(
    s0: Seq<Slot>,
    h0: Seq<int>,
    h: int,
    rk: u64,
    x: int,
    ip: int,
    len: int,
) -> bool {
    let n = s0.len() as int;
    &&& 0 <= x < n
    &&& 0 <= ip < n
    &&& if h0[h] == -1 {
        x == h && ip == h && len == 0
    } else {
        &&& exists|c: int| run_head_at(h0, c, h, x)
        &&& scan_stops(s0, x, rk, ip)
        &&& gap_after(s0, ip, len)
    }
}

/// Slot `p` after the remainder `rk` of bucket `h` is written at slot `ip` and
/// the `len` remainders from `ip` on have moved one slot forward. A moved
/// remainder keeps its continued bit and becomes shifted; with `fix`, the one
/// that was at `ip` becomes continued. Occupied bits stay with their buckets.
pub open spec fn placed_slot(
    s0: Seq<Slot>,
    h: int,
    rk: u64,
    ip: int,
    len: int,
    cont: bool,
    fix: bool,
    p: int,
) -> Slot {
    let n = s0.len() as int;
    let j = fwd(n, ip, p);
    let pp = prev_slot(n, p);
    if j == 0 {
        Slot { remainder: rk, occupied: s0[p].occupied, continued: cont, shifted: ip != h }
    } else if j <= len {
        Slot {
            remainder: s0[pp].remainder,
            occupied: s0[p].occupied,
            continued: (fix && j == 1) || s0[pp].continued,
            shifted: true,
        }
    } else {
        s0[p]
    }
}

/// The home bucket of slot `p` after the same step.
pub open spec fn placed_home(h0: Seq<int>, h: int, ip: int, len: int, p: int) -> int {
    let n = h0.len() as int;
    let j = fwd(n, ip, p);
    if j == 0 {
        h
    } else if j <= len {
        h0[prev_slot(n, p)]
    } else {
        h0[p]
    }
}

/// The table after that step.
pub open spec fn placed_slots(
    s0: Seq<Slot>,
    h: int,
    rk: u64,
    ip: int,
    len: int,
    cont: bool,
    fix: bool,
) -> Seq<Slot> {
    Seq::new(s0.len(), |p: int| placed_slot(s0, h, rk, ip, len, cont, fix, p))
}

/// The home buckets after that step.
pub open spec fn placed_homes(h0: Seq<int>, h: int, ip: int, len: int) -> Seq<int> {
    Seq::new(h0.len(), |p: int| placed_home(h0, h, ip, len, p))
}

/// The place that insertion has found for a remainder `rk` of bucket `h`: the
/// run of `h` starts at `x` in the cluster that starts at `c`; the slots from
/// `x` up to `ip` hold smaller remainders of `h`; slot `ip` is empty or holds
/// a remainder of `h` that is not smaller, or one of a later bucket; and the
/// `len` slots from `ip` on are in use, the next one empty.
pub open spec fn place_found(
    s0: Seq<Slot>,
    h0: Seq<int>,
    r: nat,
    c: int,
    h: int,
    x: int,
    rk: u64,
    ip: int,
    len: int,
) -> bool {
    let n = h0.len() as int;
    let ki = fwd(n, x, ip);
    &&& table_ok(s0, h0, r, h)
    &&& run_head_at(h0, c, h, x)
    &&& rk < pow2(r)
    &&& 0 <= ip < n
    &&& 0 <= len < n
    &&& fwd(n, c, x) + ki < n
    &&& forall|j: int|
        0 <= j < ki ==> h0[#[trigger] step(n, x, j)] == h && s0[step(n, x, j)].remainder < rk
    &&& h0[ip] != -1 && ki > 0 ==> !(s0[ip].continued && s0[ip].remainder < rk)
    &&& h0[ip] != -1 && ki == 0 ==> s0[ip].remainder >= rk
    &&& forall|j: int| 0 <= j < len ==> h0[#[trigger] step(n, ip, j)] != -1
    &&& h0[step(n, ip, len)] == -1
}

/// The slots that the search for the insertion slot has passed hold remainders of bucket `h`.
proof fn lemma_scan_homes(
    s0: Seq<Slot>,
    h0: Seq<int>,
    r: nat,
    h: int,
    x: int,
    rk: u64,
    ip: int,
    j: int,
)
    requires
        table_ok(s0, h0, r, h),
        0 <= x < h0.len(),
        0 <= ip < h0.len(),
        h0[x] == h,
        scan_stops(s0, x, rk, ip),
        0 <= j < fwd(h0.len() as int, x, ip),
    ensures
        h0[step(h0.len() as int, x, j)] == h,
    decreases j,
{
    let n = h0.len() as int;
    if j > 0 {
        lemma_scan_homes(s0, h0, r, h, x, rk, ip, j - 1);
        let p = step(n, x, j);
        assert(s0[step(n, x, j)].continued);
        assert(slot_ok(s0, h0, r, h, p));
        assert(prev_slot(n, p) == step(n, x, j - 1));
    }
}

/// What insertion has found by looking at the table's bits is the place for
/// the remainder, provided the bucket has a run or the slot where its run
/// would start is empty or holds a remainder that is not smaller.
pub proof fn lemma_place_found(
    s0: Seq<Slot>,
    h0: Seq<int>,
    r: nat,
    c: int,
    h: int,
    x: int,
    rk: u64,
    ip: int,
    len: int,
)
    requires
        table_ok(s0, h0, r, h),
        run_head_at(h0, c, h, x),
        h0[h] != -1,
        rk < pow2(r),
        0 <= ip < h0.len(),
        scan_stops(s0, x, rk, ip),
        gap_after(s0, ip, len),
        exists|e: int| 0 <= e < h0.len() && #[trigger] h0[e] == -1,
        has_run(h0, h) || h0[x] == -1 || s0[x].remainder >= rk,
    ensures
        place_found(s0, h0, r, c, h, x, rk, ip, len),
{
    let n = h0.len() as int;
    let ki = fwd(n, x, ip);
    let ro = fwd(n, c, x);
    let e = choose|e: int| 0 <= e < h0.len() && #[trigger] h0[e] == -1;
    lemma_vacant_iff(s0, h0, r, h, x);
    lemma_vacant_iff(s0, h0, r, h, ip);
    assert(step(n, x, 0) == x);
    assert(step(n, c, ro) == x);
    if ki > 0 {
        assert(has_run(h0, h));
        assert(h0[x] == h);
    }
    assert forall|j: int| 0 <= j < ki implies h0[#[trigger] step(n, x, j)] == h && s0[step(
        n,
        x,
        j,
    )].remainder < rk by {
        lemma_scan_homes(s0, h0, r, h, x, rk, ip, j);
        if j > 0 {
            assert(s0[step(n, x, j)].continued);
        }
    }
    assert(ro + ki < n) by {
        if ro + ki >= n {
            let js = n - ro;
            assert(step(n, x, js) == c);
            assert(slot_ok(s0, h0, r, h, c));
            if js < ki {
                assert(s0[step(n, x, js)].continued);
            } else {
                let oe = fwd(n, c, e);
                assert(step(n, c, oe) == e);
                if oe < ro {
                    assert(h0[step(n, c, oe)] != -1);
                } else {
                    assert(h0[step(n, x, oe - ro)] == h);
                    assert(step(n, x, oe - ro) == e);
                }
            }
        }
    }
    assert forall|j: int| 0 <= j < len implies h0[#[trigger] step(n, ip, j)] != -1 by {
        assert(!s0[step(n, ip, j)].is_vacant());
        lemma_vacant_iff(s0, h0, r, h, step(n, ip, j));
    }
    lemma_vacant_iff(s0, h0, r, h, step(n, ip, len));
}

/// Seen from the start of the cluster, the slots up to the end of the moved
/// range are in use without a gap; those before `ip` hold remainders of `h` or
/// of earlier buckets, the moved ones remainders of `h` or of later buckets.
pub proof fn lemma_place_frame(
    s0: Seq<Slot>,
    h0: Seq<int>,
    r: nat,
    c: int,
    h: int,
    x: int,
    rk: u64,
    ip: int,
    len: int,
    o: int,
)
    requires
        place_found(s0, h0, r, c, h, x, rk, ip, len),
        0 <= o < fwd(h0.len() as int, c, ip) + len,
    ensures
        fwd(h0.len() as int, c, ip) == fwd(h0.len() as int, c, x) + fwd(h0.len() as int, x, ip),
        fwd(h0.len() as int, c, ip) + len < h0.len(),
        h0[step(h0.len() as int, c, o)] != -1,
        0 <= rel(h0, c, o) <= o,
        h0[step(h0.len() as int, c, o)] == step(h0.len() as int, c, rel(h0, c, o)),
        o < fwd(h0.len() as int, c, ip) ==> rel(h0, c, o) <= fwd(h0.len() as int, c, h),
        o < fwd(h0.len() as int, c, x) ==> rel(h0, c, o) < fwd(h0.len() as int, c, h),
        fwd(h0.len() as int, c, x) <= o < fwd(h0.len() as int, c, ip) ==> h0[step(
            h0.len() as int,
            c,
            o,
        )] == h,
        o >= fwd(h0.len() as int, c, ip) ==> rel(h0, c, o) >= fwd(h0.len() as int, c, h),
    decreases o,
{
    let n = h0.len() as int;
    let ro = fwd(n, c, x);
    let ki = fwd(n, x, ip);
    let oi = fwd(n, c, ip);
    let d = fwd(n, c, h);
    assert(oi == ro + ki);
    assert(step(n, c, d) == h);
    // the moved range ends before the walk comes round to the cluster's start
    assert(oi + len < n) by {
        if oi + len >= n {
            let e = step(n, ip, len);
            let oe = oi + len - n;
            assert(fwd(n, c, e) == oe);
            if oe < ro {
                assert(h0[step(n, c, oe)] != -1);
            } else {
                assert(h0[step(n, x, oe - ro)] == h);
                assert(step(n, x, oe - ro) == e);
            }
        }
    }
    let s = step(n, c, o);
    if o < ro {
        assert(h0[step(n, c, o)] != -1 && rel(h0, c, o) < d);
    } else if o < oi {
        assert(h0[step(n, x, o - ro)] == h);
        assert(step(n, x, o - ro) == s);
    } else {
        assert(h0[step(n, ip, o - oi)] != -1);
        assert(step(n, ip, o - oi) == s);
    }
    lemma_barrier(s0, h0, r, h, c, o);
    if o >= oi {
        assert(slot_ok(s0, h0, r, h, s));
        if o == 0 {
        } else if o == oi {
            if ki == 0 {
                assert(step(n, c, ro) == x);
            } else {
                lemma_place_frame(s0, h0, r, c, h, x, rk, ip, len, o - 1);
                if rel(h0, c, o) < o {
                    lemma_back_step(s0, h0, r, h, c, o);
                }
            }
        } else {
            lemma_place_frame(s0, h0, r, c, h, x, rk, ip, len, o - 1);
            if rel(h0, c, o) < o {
                lemma_back_step(s0, h0, r, h, c, o);
            }
        }
    }
}

/// After the step a bucket has a run iff it had one before or is the bucket written to.
pub proof fn lemma_place_runs(
    s0: Seq<Slot>,
    h0: Seq<int>,
    r: nat,
    c: int,
    h: int,
    x: int,
    rk: u64,
    ip: int,
    len: int,
    b: int,
)
    requires
        place_found(s0, h0, r, c, h, x, rk, ip, len),
        0 <= b < h0.len(),
    ensures
        has_run(placed_homes(h0, h, ip, len), b) <==> (b == h || has_run(h0, b)),
{
    let n = h0.len() as int;
    let h1 = placed_homes(h0, h, ip, len);
    if has_run(h1, b) {
        let t = choose|t: int| 0 <= t < h1.len() && #[trigger] h1[t] == b;
        let j = fwd(n, ip, t);
        if j == 0 {
        } else if j <= len {
            assert(h0[prev_slot(n, t)] == b);
        } else {
            assert(h0[t] == b);
        }
    }
    if b == h {
        assert(h1[ip] == h);
    }
    if has_run(h0, b) {
        let t = choose|t: int| 0 <= t < h0.len() && #[trigger] h0[t] == b;
        let j = fwd(n, ip, t);
        if j < len {
            let t2 = step(n, ip, j + 1);
            assert(prev_slot(n, t2) == t);
            assert(fwd(n, ip, t2) == j + 1);
            assert(h1[t2] == b);
        } else {
            assert(step(n, ip, len) != t);
            assert(h1[t] == b);
        }
    }
}

/// The table after the remainder `rk` of bucket `h` is inserted at the place
/// found for it: it is continued iff it follows a remainder of its run, and
/// the former head of the run becomes continued when it is inserted before it.
pub open spec fn after_slots(
    s0: Seq<Slot>,
    h0: Seq<int>,
    h: int,
    x: int,
    rk: u64,
    ip: int,
    len: int,
) -> Seq<Slot> {
    placed_slots(
        s0,
        h,
        rk,
        ip,
        len,
        has_run(h0, h) && fwd(h0.len() as int, x, ip) > 0,
        has_run(h0, h) && fwd(h0.len() as int, x, ip) == 0,
    )
}

/// The slot written to agrees with the new home buckets.
#[verifier::rlimit(50)]
proof fn lemma_place_slot_new(
    s0: Seq<Slot>,
    h0: Seq<int>,
    r: nat,
    c: int,
    h: int,
    x: int,
    rk: u64,
    ip: int,
    len: int,
)
    requires
        place_found(s0, h0, r, c, h, x, rk, ip, len),
    ensures
        slot_ok(after_slots(s0, h0, h, x, rk, ip, len), placed_homes(h0, h, ip, len), r, -1, ip),
{
    let n = h0.len() as int;
    let ro = fwd(n, c, x);
    let ki = fwd(n, x, ip);
    let oi = fwd(n, c, ip);
    let d = fwd(n, c, h);
    let s1 = after_slots(s0, h0, h, x, rk, ip, len);
    let h1 = placed_homes(h0, h, ip, len);
    let pp = prev_slot(n, ip);
    assert(step(n, c, d) == h);
    assert(step(n, c, oi) == ip);
    assert(step(n, c, ro) == x);
    assert(slot_ok(s0, h0, r, h, ip));
    lemma_place_runs(s0, h0, r, c, h, x, rk, ip, len, ip);
    assert(h1[ip] == h);
    assert(s1[ip] == Slot {
        remainder: rk,
        occupied: s0[ip].occupied,
        continued: has_run(h0, h) && ki > 0,
        shifted: ip != h,
    });
    if ki > 0 {
        assert(h0[step(n, x, 0)] == h);
        assert(has_run(h0, h));
    }
    if oi > 0 {
        lemma_place_frame(s0, h0, r, c, h, x, rk, ip, len, oi - 1);
        assert(step(n, c, oi - 1) == pp);
        assert(fwd(n, ip, pp) == n - 1);
        assert(h1[pp] == h0[pp]);
        assert(s1[pp] == s0[pp]);
        assert(fwd(n, h, ip) == oi - d);
        assert(fwd(n, h0[pp], pp) == oi - 1 - rel(h0, c, oi - 1));
        if ki > 0 {
            assert(step(n, x, ki - 1) == pp);
            assert(h0[step(n, x, ki - 1)] == h && s0[step(n, x, ki - 1)].remainder < rk);
        } else {
            assert(rel(h0, c, oi - 1) < d);
            assert(h0[pp] != h);
        }
    } else {
        assert(ip == h);
    }
}

/// The slot that received the remainder that was at the insertion slot
/// agrees with the new home buckets.
#[verifier::rlimit(50)]
proof fn lemma_place_slot_first(
    s0: Seq<Slot>,
    h0: Seq<int>,
    r: nat,
    c: int,
    h: int,
    x: int,
    rk: u64,
    ip: int,
    len: int,
    p: int,
)
    requires
        place_found(s0, h0, r, c, h, x, rk, ip, len),
        0 <= p < h0.len(),
        fwd(h0.len() as int, ip, p) == 1,
        1 <= len,
    ensures
        slot_ok(after_slots(s0, h0, h, x, rk, ip, len), placed_homes(h0, h, ip, len), r, -1, p),
{
    let n = h0.len() as int;
    let ro = fwd(n, c, x);
    let ki = fwd(n, x, ip);
    let oi = fwd(n, c, ip);
    let d = fwd(n, c, h);
    let s1 = after_slots(s0, h0, h, x, rk, ip, len);
    let h1 = placed_homes(h0, h, ip, len);
    let j = fwd(n, ip, p);
    let pp = prev_slot(n, p);
    let fix = has_run(h0, h) && ki == 0;
    assert(step(n, c, d) == h);
    assert(step(n, c, oi) == ip);
    assert(step(n, c, ro) == x);
    assert(slot_ok(s0, h0, r, h, p));
    assert(slot_ok(s0, h0, r, h, pp));
    lemma_place_runs(s0, h0, r, c, h, x, rk, ip, len, p);
    let op = oi + j - 1;
    lemma_place_frame(s0, h0, r, c, h, x, rk, ip, len, op);
    assert(step(n, c, op) == pp);
    assert(step(n, c, op + 1) == p);
    assert(h1[p] == h0[pp]);
    assert(s1[p] == Slot {
        remainder: s0[pp].remainder,
        occupied: s0[p].occupied,
        continued: (fix && j == 1) || s0[pp].continued,
        shifted: true,
    });
    let g = rel(h0, c, op);
    assert(h0[pp] == step(n, c, g));
    assert(fwd(n, h0[pp], pp) == op - g);
    assert(fwd(n, h0[pp], p) == op + 1 - g);
    assert(h1[p] != p);
    assert(pp == ip);
    assert(h1[pp] == h);
    assert(s1[pp].remainder == rk);
    assert(fwd(n, h, ip) == oi - d);
    if ki > 0 {
        assert(step(n, x, ki - 1) == prev_slot(n, ip));
        assert(h0[step(n, x, ki - 1)] == h);
        assert(h0[step(n, x, 0)] == h);
        assert(has_run(h0, h));
    } else {
        if has_run(h0, h) {
            assert(h0[x] == h);
        } else {
            assert(h0[ip] != h);
            if oi > 0 {
                lemma_place_frame(s0, h0, r, c, h, x, rk, ip, len, oi - 1);
                assert(step(n, c, oi - 1) == prev_slot(n, ip));
                assert(h0[prev_slot(n, ip)] == step(n, c, rel(h0, c, oi - 1)));
            }
        }
    }
}

/// A slot that received the remainder of a slot that has itself received
/// one agrees with the new home buckets.
#[verifier::rlimit(50)]
proof fn lemma_place_slot_later(
    s0: Seq<Slot>,
    h0: Seq<int>,
    r: nat,
    c: int,
    h: int,
    x: int,
    rk: u64,
    ip: int,
    len: int,
    p: int,
)
    requires
        place_found(s0, h0, r, c, h, x, rk, ip, len),
        0 <= p < h0.len(),
        2 <= fwd(h0.len() as int, ip, p) <= len,
    ensures
        slot_ok(after_slots(s0, h0, h, x, rk, ip, len), placed_homes(h0, h, ip, len), r, -1, p),
{
    let n = h0.len() as int;
    let ro = fwd(n, c, x);
    let ki = fwd(n, x, ip);
    let oi = fwd(n, c, ip);
    let d = fwd(n, c, h);
    let s1 = after_slots(s0, h0, h, x, rk, ip, len);
    let h1 = placed_homes(h0, h, ip, len);
    let j = fwd(n, ip, p);
    let pp = prev_slot(n, p);
    let fix = has_run(h0, h) && ki == 0;
    assert(step(n, c, d) == h);
    assert(step(n, c, oi) == ip);
    assert(step(n, c, ro) == x);
    assert(slot_ok(s0, h0, r, h, p));
    assert(slot_ok(s0, h0, r, h, pp));
    lemma_place_runs(s0, h0, r, c, h, x, rk, ip, len, p);
    let op = oi + j - 1;
    lemma_place_frame(s0, h0, r, c, h, x, rk, ip, len, op);
    assert(step(n, c, op) == pp);
    assert(step(n, c, op + 1) == p);
    assert(h1[p] == h0[pp]);
    assert(s1[p] == Slot {
        remainder: s0[pp].remainder,
        occupied: s0[p].occupied,
        continued: (fix && j == 1) || s0[pp].continued,
        shifted: true,
    });
    let g = rel(h0, c, op);
    assert(h0[pp] == step(n, c, g));
    assert(fwd(n, h0[pp], pp) == op - g);
    assert(fwd(n, h0[pp], p) == op + 1 - g);
    assert(h1[p] != p);
    let ppp = prev_slot(n, pp);
    assert(step(n, c, op - 1) == ppp);
    assert(fwd(n, ip, pp) == j - 1);
    assert(h1[pp] == h0[ppp]);
    assert(s1[pp].remainder == s0[ppp].remainder);
    lemma_place_frame(s0, h0, r, c, h, x, rk, ip, len, op - 1);
    let g2 = rel(h0, c, op - 1);
    assert(h0[ppp] == step(n, c, g2));
    assert(fwd(n, h0[ppp], ppp) == op - 1 - g2);
    assert(fwd(n, h0[ppp], pp) == op - g2);
    if g < op {
        lemma_back_step(s0, h0, r, h, c, op);
    }
}

/// A slot beyond the moved range agrees with the new home buckets as it did with the old.
proof fn lemma_place_slot_kept(
    s0: Seq<Slot>,
    h0: Seq<int>,
    r: nat,
    c: int,
    h: int,
    x: int,
    rk: u64,
    ip: int,
    len: int,
    p: int,
)
    requires
        place_found(s0, h0, r, c, h, x, rk, ip, len),
        0 <= p < h0.len(),
        fwd(h0.len() as int, ip, p) > len,
    ensures
        slot_ok(after_slots(s0, h0, h, x, rk, ip, len), placed_homes(h0, h, ip, len), r, -1, p),
{
    let n = h0.len() as int;
    let s1 = after_slots(s0, h0, h, x, rk, ip, len);
    let h1 = placed_homes(h0, h, ip, len);
    let j = fwd(n, ip, p);
    let pp = prev_slot(n, p);
    assert(slot_ok(s0, h0, r, h, p));
    lemma_place_runs(s0, h0, r, c, h, x, rk, ip, len, p);
    assert(h1[p] == h0[p]);
    assert(s1[p] == s0[p]);
    if j == len + 1 {
        assert(pp == step(n, ip, len));
        assert(h0[pp] == -1);
    } else {
        assert(fwd(n, ip, pp) == j - 1);
        assert(h1[pp] == h0[pp]);
        assert(s1[pp] == s0[pp]);
    }
}

/// Setting the occupied bit of a bucket ahead of its run keeps the layout valid, with that bucket pending.
pub proof fn lemma_mark(t0: Seq<Slot>, h0: Seq<int>, r: nat, h: int)
    requires
        table_ok(t0, h0, r, -1),
        0 <= h < h0.len(),
    ensures
        table_ok(marked(t0, h), h0, r, h),
{
    let s0 = marked(t0, h);
    assert forall|p: int| 0 <= p < s0.len() implies #[trigger] slot_ok(s0, h0, r, h, p) by {
        assert(slot_ok(t0, h0, r, -1, p));
    }
}

/// Writing a remainder into its own, empty home slot leaves a valid layout.
pub proof fn lemma_place_vacant(t0: Seq<Slot>, h0: Seq<int>, r: nat, h: int, rk: u64)
    requires
        table_ok(t0, h0, r, -1),
        0 <= h < h0.len(),
        h0[h] == -1,
        rk < pow2(r),
    ensures
        table_ok(after_slots(marked(t0, h), h0, h, h, rk, h, 0), placed_homes(h0, h, h, 0), r, -1),
{
    let n = h0.len() as int;
    let s0 = marked(t0, h);
    let s1 = after_slots(s0, h0, h, h, rk, h, 0);
    let h1 = placed_homes(h0, h, h, 0);
    assert forall|p: int| 0 <= p < s1.len() implies #[trigger] slot_ok(s1, h1, r, -1, p) by {
        let pp = prev_slot(n, p);
        assert(slot_ok(t0, h0, r, -1, p));
        assert(slot_ok(t0, h0, r, -1, pp));
        assert(h1[p] == if p == h { h } else { h0[p] });
        assert(h1[pp] == if pp == h { h } else { h0[pp] });
        assert(s1[pp].remainder == if pp == h { rk } else { t0[pp].remainder });
        if has_run(h1, p) {
            let t = choose|t: int| 0 <= t < h1.len() && #[trigger] h1[t] == p;
            if t != h {
                assert(h0[t] == p);
            }
        }
        if p == h {
            assert(h1[h] == h);
        }
        if has_run(h0, p) {
            let t = choose|t: int| 0 <= t < h0.len() && #[trigger] h0[t] == p;
            assert(h1[t] == p);
        }
    }
}

/// Slot `p` after it has taken up the remainder of the slot before it.
pub open spec fn moved_slot(s0: Seq<Slot>, p: int) -> Slot {
    let pp = prev_slot(s0.len() as int, p);
    Slot {
        remainder: s0[pp].remainder,
        occupied: s0[p].occupied,
        continued: s0[pp].continued,
        shifted: true,
    }
}

/// The table while, of the `len` remainders from `ip` on, those more than
/// `jc` slots after `ip` have moved forward.
pub open spec fn moving_slots(s0: Seq<Slot>, ip: int, len: int, jc: int) -> Seq<Slot> {
    Seq::new(
        s0.len(),
        |p: int|
            if jc < fwd(s0.len() as int, ip, p) <= len {
                moved_slot(s0, p)
            } else {
                s0[p]
            },
    )
}

/// The table `f1` after the new remainder is written at slot `ip`, and, with
/// `fix`, the slot after it is marked continued.
pub open spec fn written(f1: Seq<Slot>, ip: int, rk: u64, sh: bool, cont: bool, fix: bool) -> Seq<
    Slot,
> {
    let n = f1.len() as int;
    let f2 = f1.update(
        ip,
        Slot { remainder: rk, shifted: sh, continued: cont, occupied: f1[ip].occupied },
    );
    let nx = next_slot(n, ip);
    if fix {
        f2.update(nx, Slot { continued: true, ..f2[nx] })
    } else {
        f2
    }
}

/// Moving the remainders and then writing the new one gives the table that
/// `after_slots` describes.
pub proof fn lemma_written(
    s0: Seq<Slot>,
    h0: Seq<int>,
    h: int,
    x: int,
    rk: u64,
    ip: int,
    len: int,
    f1: Seq<Slot>,
)
    requires
        s0.len() == f1.len(),
        s0.len() == h0.len(),
        s0.len() >= 2,
        0 <= ip < s0.len(),
        1 <= len < s0.len(),
        f1 == moving_slots(s0, ip, len, 0),
    ensures
        written(
            f1,
            ip,
            rk,
            ip != h,
            has_run(h0, h) && fwd(h0.len() as int, x, ip) > 0,
            has_run(h0, h) && fwd(h0.len() as int, x, ip) == 0,
        ) == after_slots(s0, h0, h, x, rk, ip, len),
{
    let n = s0.len() as int;
    let w = written(
        f1,
        ip,
        rk,
        ip != h,
        has_run(h0, h) && fwd(n, x, ip) > 0,
        has_run(h0, h) && fwd(n, x, ip) == 0,
    );
    let s1 = after_slots(s0, h0, h, x, rk, ip, len);
    let nx = next_slot(n, ip);
    assert(fwd(n, ip, nx) == 1);
    assert(fwd(n, ip, ip) == 0);
    assert forall|p: int| 0 <= p < n implies w[p] == s1[p] by {
        let j = fwd(n, ip, p);
        if j == 1 {
            assert(p == nx);
        }
    }
    assert(w =~= s1);
}

/// Moving the remainders and writing the new one takes one more slot into
/// use, whatever the table holds: the slot that was all zero at the end of
/// the moved range.
pub proof fn lemma_used_written(
    t0: Seq<Slot>,
    h: int,
    rk: u64,
    ip: int,
    len: int,
    cont: bool,
    fix: bool,
    fin: Seq<Slot>,
)
    requires
        t0.len() >= 2,
        0 <= h < t0.len(),
        0 <= ip < t0.len(),
        !t0[h].is_vacant(),
        gap_after(marked(t0, h), ip, len),
        fix ==> len >= 1,
        fin == written(moving_slots(marked(t0, h), ip, len, 0), ip, rk, ip != h, cont, fix),
    ensures
        in_use(fin, t0.len() as int) == in_use(t0, t0.len() as int) + 1,
{
    let n = t0.len() as int;
    let s0 = marked(t0, h);
    let f1 = moving_slots(s0, ip, len, 0);
    let e = step(n, ip, len);
    let nx = next_slot(n, ip);
    assert(fwd(n, ip, ip) == 0);
    assert(fwd(n, ip, e) == len);
    assert(fwd(n, ip, nx) == 1);
    assert(s0[e].is_vacant());
    assert(e != h);
    assert forall|p: int| 0 <= p < n && p != e implies t0[p].is_vacant() == (
    #[trigger] fin[p]).is_vacant() by {
        let j = fwd(n, ip, p);
        assert(step(n, ip, j) == p);
        if j < len {
            assert(!s0[step(n, ip, j)].is_vacant());
        }
        if j == 1 {
            assert(p == nx);
        }
    }
    assert(!fin[e].is_vacant()) by {
        if len == 1 {
            assert(e == nx);
        }
    }
    lemma_used_step(t0, fin, n, e);
}

/// Writing the new remainder into an empty slot gives the table that
/// `after_slots` describes for no moved remainder.
pub proof fn lemma_written_vacant(
    s0: Seq<Slot>,
    h0: Seq<int>,
    h: int,
    x: int,
    rk: u64,
    ip: int,
)
    requires
        s0.len() == h0.len(),
        s0.len() >= 2,
        0 <= ip < s0.len(),
    ensures
        written(s0, ip, rk, ip != h, has_run(h0, h) && fwd(h0.len() as int, x, ip) > 0, false)
            == after_slots(s0, h0, h, x, rk, ip, 0),
{
    let n = s0.len() as int;
    let w = written(s0, ip, rk, ip != h, has_run(h0, h) && fwd(n, x, ip) > 0, false);
    let s1 = after_slots(s0, h0, h, x, rk, ip, 0);
    assert(fwd(n, ip, ip) == 0);
    assert forall|p: int| 0 <= p < n implies w[p] == s1[p] by {}
    assert(w =~= s1);
}

/// The home buckets while the last `m` of the `len` remainders from `ip` on
/// have moved forward: the slot that the next one leaves next is counted empty.
pub open spec fn moved_homes(h0: Seq<int>, ip: int, len: int, m: int) -> Seq<int> {
    Seq::new(
        h0.len(),
        |p: int|
            {
                let n = h0.len() as int;
                let j = fwd(n, ip, p);
                if len - m < j <= len {
                    h0[prev_slot(n, p)]
                } else if j == len - m {
                    -1
                } else {
                    h0[p]
                }
            },
    )
}

/// The table at that time, as far as remainders go.
pub open spec fn moved_slots(s0: Seq<Slot>, ip: int, len: int, m: int) -> Seq<Slot> {
    Seq::new(
        s0.len(),
        |p: int|
            {
                let n = s0.len() as int;
                let j = fwd(n, ip, p);
                if len - m < j <= len {
                    Slot { remainder: s0[prev_slot(n, p)].remainder, ..s0[p] }
                } else {
                    s0[p]
                }
            },
    )
}

/// Moving remainders forward into an empty slot does not change what is stored.
pub proof fn lemma_stored_moved(
    s0: Seq<Slot>,
    h0: Seq<int>,
    r: nat,
    ip: int,
    len: int,
    m: int,
)
    requires
        s0.len() == h0.len(),
        0 <= ip < h0.len(),
        0 <= m <= len < h0.len(),
        h0[step(h0.len() as int, ip, len)] == -1,
        forall|j: int| 0 <= j < len ==> h0[#[trigger] step(h0.len() as int, ip, j)] != -1,
    ensures
        stored(moved_slots(s0, ip, len, m), moved_homes(h0, ip, len, m), r, h0.len() as int)
            == stored(s0, h0, r, h0.len() as int),
    decreases m,
{
    let n = h0.len() as int;
    if m == 0 {
        assert(moved_slots(s0, ip, len, 0) =~= s0);
        assert(moved_homes(h0, ip, len, 0) =~= h0) by {
            assert forall|p: int| 0 <= p < n implies moved_homes(h0, ip, len, 0)[p] == h0[p] by {
                if fwd(n, ip, p) == len {
                    assert(p == step(n, ip, len));
                }
            }
        }
    } else {
        lemma_stored_moved(s0, h0, r, ip, len, m - 1);
        let sa = moved_slots(s0, ip, len, m - 1);
        let ga = moved_homes(h0, ip, len, m - 1);
        let curr = step(n, ip, len - m + 1);
        let prev = step(n, ip, len - m);
        assert(prev_slot(n, curr) == prev);
        assert(fwd(n, ip, curr) == len - m + 1);
        assert(fwd(n, ip, prev) == len - m);
        assert(h0[prev] != -1);
        let sc = Slot { remainder: s0[prev].remainder, ..s0[curr] };
        let sb = sa.update(curr, sc);
        let gb = ga.update(curr, h0[prev]);
        lemma_stored_update(sa, ga, r, n, curr, sc, h0[prev]);
        lemma_stored_update(sb, gb, r, n, prev, sb[prev], -1);
        let k = fingerprint(h0[prev], s0[prev].remainder, r);
        assert(sb.update(prev, sb[prev]) =~= sb);
        let gc = gb.update(prev, -1);
        assert(stored(sb, gb, r, n) == stored(sa, ga, r, n).insert(k));
        assert(stored(sb, gc, r, n).insert(k) == stored(sb, gb, r, n));
        lemma_insert_cancel(stored(sb, gc, r, n), stored(sa, ga, r, n), k);
        assert(sb =~= moved_slots(s0, ip, len, m));
        assert(gc =~= moved_homes(h0, ip, len, m));
    }
}

/// Inserting a remainder where `len` remainders move forward into an empty
/// slot stores its fingerprint and keeps the others.
pub proof fn lemma_stored_placed(
    s0: Seq<Slot>,
    h0: Seq<int>,
    r: nat,
    h: int,
    x: int,
    rk: u64,
    ip: int,
    len: int,
)
    requires
        s0.len() == h0.len(),
        0 <= h < h0.len(),
        0 <= ip < h0.len(),
        0 <= len < h0.len(),
        h0[step(h0.len() as int, ip, len)] == -1,
        forall|j: int| 0 <= j < len ==> h0[#[trigger] step(h0.len() as int, ip, j)] != -1,
    ensures
        stored(
            after_slots(s0, h0, h, x, rk, ip, len),
            placed_homes(h0, h, ip, len),
            r,
            h0.len() as int,
        ) == stored(s0, h0, r, h0.len() as int).insert(fingerprint(h, rk, r)),
{
    let n = h0.len() as int;
    lemma_stored_moved(s0, h0, r, ip, len, len);
    let sa = moved_slots(s0, ip, len, len);
    let ga = moved_homes(h0, ip, len, len);
    let s1 = after_slots(s0, h0, h, x, rk, ip, len);
    let h1 = placed_homes(h0, h, ip, len);
    assert(fwd(n, ip, ip) == 0);
    assert(ga[ip] == -1);
    assert(s1[ip].remainder == rk);
    lemma_stored_update(sa, ga, r, n, ip, s1[ip], h);
    let sb = sa.update(ip, s1[ip]);
    assert(ga.update(ip, h) =~= h1);
    assert(stored(sb, h1, r, n) == stored(sa, ga, r, n).insert(fingerprint(h, rk, r)));
    assert forall|p: int| 0 <= p < n implies sb[p].remainder == (#[trigger] s1[p]).remainder by {}
    lemma_stored_agree(sb, s1, h1, r, n);
}

/// Inserting a remainder at the place found for it leaves a valid layout, in
/// which the start of the cluster is still a barrier.
pub proof fn lemma_place(
    s0: Seq<Slot>,
    h0: Seq<int>,
    r: nat,
    c: int,
    h: int,
    x: int,
    rk: u64,
    ip: int,
    len: int,
)
    requires
        place_found(s0, h0, r, c, h, x, rk, ip, len),
    ensures
        table_ok(after_slots(s0, h0, h, x, rk, ip, len), placed_homes(h0, h, ip, len), r, -1),
        is_barrier(placed_homes(h0, h, ip, len), c),
{
    let n = h0.len() as int;
    let s1 = after_slots(s0, h0, h, x, rk, ip, len);
    let h1 = placed_homes(h0, h, ip, len);
    assert forall|p: int| 0 <= p < s1.len() implies #[trigger] slot_ok(s1, h1, r, -1, p) by {
        let j = fwd(n, ip, p);
        if j == 0 {
            lemma_place_slot_new(s0, h0, r, c, h, x, rk, ip, len);
        } else if j == 1 && j <= len {
            lemma_place_slot_first(s0, h0, r, c, h, x, rk, ip, len, p);
        } else if j <= len {
            lemma_place_slot_later(s0, h0, r, c, h, x, rk, ip, len, p);
        } else {
            lemma_place_slot_kept(s0, h0, r, c, h, x, rk, ip, len, p);
        }
    }
    let oi = fwd(n, c, ip);
    if oi + len > 0 {
        lemma_place_frame(s0, h0, r, c, h, x, rk, ip, len, 0);
    }
    assert(step(n, c, fwd(n, c, h)) == h);
}

} // verus!
