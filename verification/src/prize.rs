//! The prize allocator: weighs the configured tier percentages by winner
//! count, renormalizes them when they would overcommit the pool, and turns
//! them into per-participant owed amounts. Integer (floor) division is used
//! at every step, so a small residual can stay in the pool; the total owed
//! never exceeds the pool.

use vstd::prelude::*;
use vstd::arithmetic::div_mod::{
    lemma_fundamental_div_mod, lemma_fundamental_div_mod_converse,
    lemma_div_is_ordered, lemma_div_multiples_vanish, lemma_div_pos_is_pos,
};
use crate::assoc::{
    sget, shas, keys_unique, lemma_shas_index, lemma_sget_index, lemma_sget_push,
    lemma_sget_update, find_key_u32, find_key_u64,
};

verus! {

/// Winner count a tier lookup stands for: none means no winners.
pub open spec fn klen(o: Option<Vec<u64>>) -> int {
    match o {
        None => 0,
        Some(l) => l@.len() as int,
    }
}

/// Occurrences of `x` in a winner group.
pub open spec fn cnt(l: Seq<u64>, x: u64) -> int
    decreases l.len(),
{
    if l.len() == 0 {
        0
    } else {
        cnt(l.drop_last(), x) + if l.last() == x {
            1int
        } else {
            0int
        }
    }
}

/// Occurrences of `x` in the winner group a tier lookup stands for.
pub open spec fn lcnt(o: Option<Vec<u64>>, x: u64) -> int {
    match o {
        None => 0,
        Some(l) => cnt(l@, x),
    }
}

/// Amount an owed-map lookup stands for: absent means nothing owed.
pub open spec fn amt(o: Option<i128>) -> int {
    match o {
        None => 0,
        Some(v) => v as int,
    }
}

/// Sum of all percentages of a threshold set.
pub open spec fn sum_pct(s: Seq<(u32, u32)>) -> int
    decreases s.len(),
{
    if s.len() == 0 {
        0
    } else {
        sum_pct(s.drop_last()) + s.last().1
    }
}

/// Sum of all owed amounts.
pub open spec fn sum_amounts(s: Seq<(u64, i128)>) -> int
    decreases s.len(),
{
    if s.len() == 0 {
        0
    } else {
        sum_amounts(s.drop_last()) + s.last().1
    }
}

/// The weighted percentage total: each tier's percentage times its winner
/// count, summed over the thresholds.
pub open spec fn tot_ths(ths: Seq<(u32, u32)>, w: Seq<(u32, Vec<u64>)>) -> int
    decreases ths.len(),
{
    if ths.len() == 0 {
        0
    } else {
        tot_ths(ths.drop_last(), w) + ths.last().1 * klen(sget(w, ths.last().0))
    }
}

/// A renormalized tier percentage: the tier's total allotment rescaled
/// against the full pool, then redivided evenly among its `k` winners,
/// flooring at each step.
pub open spec fn new_pct(p: int, k: int, total: int) -> int {
    ((k * p * 100) / total) / k
}

/// The percentage a tier ends up paying with: untouched when the weighted
/// total fits in the pool, renormalized otherwise, zero for a dropped tier.
pub open spec fn eff_pct(p: int, k: int, total: int) -> int {
    if total <= 100 {
        p
    } else if k > 0 {
        new_pct(p, k, total)
    } else {
        0
    }
}

/// The weighted total after renormalization.
pub open spec fn wsum(ths: Seq<(u32, u32)>, w: Seq<(u32, Vec<u64>)>, total: int) -> int
    decreases ths.len(),
{
    if ths.len() == 0 {
        0
    } else {
        wsum(ths.drop_last(), w, total)
            + klen(sget(w, ths.last().0))
                * eff_pct(ths.last().1 as int, klen(sget(w, ths.last().0)), total)
    }
}

/// What one participant is owed: over every tier, their occurrences among
/// that tier's winners times the tier's per-winner prize, the pool times the
/// effective percentage over one hundred.
pub open spec fn owed(
    ths: Seq<(u32, u32)>,
    w: Seq<(u32, Vec<u64>)>,
    total: int,
    pool: int,
    x: u64,
) -> int
    decreases ths.len(),
{
    if ths.len() == 0 {
        0
    } else {
        owed(ths.drop_last(), w, total, pool, x)
            + lcnt(sget(w, ths.last().0), x)
                * (pool * eff_pct(ths.last().1 as int, klen(sget(w, ths.last().0)), total) / 100)
    }
}

/// Whether a participant stands among the winners of some tier.
pub open spec fn appears(ths: Seq<(u32, u32)>, w: Seq<(u32, Vec<u64>)>, x: u64) -> bool
    decreases ths.len(),
{
    if ths.len() == 0 {
        false
    } else {
        appears(ths.drop_last(), w, x) || lcnt(sget(w, ths.last().0), x) > 0
    }
}

/// A count of occurrences is never negative.
proof fn lemma_cnt_nonneg(l: Seq<u64>, x: u64)
    ensures
        cnt(l, x) >= 0,
    decreases l.len(),
{
    if l.len() > 0 {
        lemma_cnt_nonneg(l.drop_last(), x);
    }
}

/// Floor division distributes over addition with a loss, never a gain.
proof fn lemma_div_add_le(a: int, b: int, d: int)
    requires
        a >= 0,
        b >= 0,
        d > 0,
    ensures
        a / d + b / d <= (a + b) / d,
{
    lemma_fundamental_div_mod(a, d);
    lemma_fundamental_div_mod(b, d);
    let qa = a / d;
    let ra = a % d;
    let qb = b / d;
    let rb = b % d;
    if ra + rb < d {
        assert(a + b == (qa + qb) * d + (ra + rb)) by (nonlinear_arith)
            requires
                a == d * qa + ra,
                b == d * qb + rb,
        ;
        lemma_fundamental_div_mod_converse(a + b, d, qa + qb, ra + rb);
    } else {
        assert(a + b == (qa + qb + 1) * d + (ra + rb - d)) by (nonlinear_arith)
            requires
                a == d * qa + ra,
                b == d * qb + rb,
        ;
        assert(0 <= ra + rb - d < d);
        lemma_fundamental_div_mod_converse(a + b, d, qa + qb + 1, ra + rb - d);
    }
}

/// A renormalized percentage never exceeds the tier's configured one.
proof fn lemma_new_pct_le(p: int, k: int, total: int)
    requires
        0 <= p,
        1 <= k,
        101 <= total,
    ensures
        0 <= new_pct(p, k, total) <= p,
{
    let v = (k * p * 100) / total;
    assert(k * p * 100 >= 0) by (nonlinear_arith)
        requires 0 <= p && 1 <= k,
    ;
    lemma_div_pos_is_pos(k * p * 100, total);
    lemma_div_pos_is_pos(v, k);
    // total * v <= 100 * k * p
    lemma_fundamental_div_mod(k * p * 100, total);
    assert(total * v <= k * p * 100);
    // v >= k * (v / k)
    lemma_fundamental_div_mod(v, k);
    assert(k * (v / k) <= v);
    if new_pct(p, k, total) > p {
        assert(v >= k * (p + 1)) by (nonlinear_arith)
            requires
                v / k >= p + 1,
                k >= 1,
                k * (v / k) <= v,
        ;
        assert(false) by (nonlinear_arith)
            requires
                total * v <= k * p * 100,
                v >= k * (p + 1),
                total >= 101,
                k >= 1,
                p >= 0,
        ;
    }
}

/// After renormalization the weighted total fits in one hundred percent.
proof fn lemma_wsum_div(ths: Seq<(u32, u32)>, w: Seq<(u32, Vec<u64>)>, total: int)
    requires
        total >= 101,
    ensures
        wsum(ths, w, total) <= (100 * tot_ths(ths, w)) / total,
        tot_ths(ths, w) >= 0,
    decreases ths.len(),
{
    if ths.len() == 0 {
        assert((100int * 0int) / total == 0int);
    } else {
        lemma_wsum_div(ths.drop_last(), w, total);
        let p = ths.last().1 as int;
        let k = klen(sget(w, ths.last().0));
        let t0 = tot_ths(ths.drop_last(), w);
        assert(p * k >= 0) by (nonlinear_arith)
            requires p >= 0 && k >= 0,
        ;
        if k > 0 {
            let v = (k * p * 100) / total;
            assert(k * p * 100 >= 0) by (nonlinear_arith)
                requires p >= 0 && k > 0,
            ;
            lemma_div_pos_is_pos(k * p * 100, total);
            lemma_fundamental_div_mod(v, k);
            assert(k * (v / k) <= v);
            lemma_new_pct_le(p, k, total);
            assert(k * new_pct(p, k, total) <= v) by (nonlinear_arith)
                requires
                    k * (v / k) <= v,
                    new_pct(p, k, total) == v / k,
            ;
            lemma_div_add_le(100 * t0, k * p * 100, total);
            assert(k * p * 100 == 100 * (p * k)) by (nonlinear_arith);
            assert(100 * t0 + 100 * (p * k) == 100 * (t0 + p * k)) by (nonlinear_arith);
            assert(wsum(ths, w, total) <= (100 * tot_ths(ths, w)) / total);
        } else {
            assert(wsum(ths, w, total) == wsum(ths.drop_last(), w, total));
            assert(p * k == 0) by (nonlinear_arith)
                requires k == 0,
            ;
            assert(100 * t0 <= 100 * (t0 + p * k)) by (nonlinear_arith)
                requires p * k == 0,
            ;
            lemma_div_is_ordered(100 * t0, 100 * tot_ths(ths, w), total);
        }
    }
}

/// Without renormalization the weighted totals agree.
proof fn lemma_wsum_eq_tot(ths: Seq<(u32, u32)>, w: Seq<(u32, Vec<u64>)>, total: int)
    requires
        total <= 100,
    ensures
        wsum(ths, w, total) == tot_ths(ths, w),
    decreases ths.len(),
{
    if ths.len() == 0 {
    } else {
        lemma_wsum_eq_tot(ths.drop_last(), w, total);
        assert(klen(sget(w, ths.last().0)) * (ths.last().1 as int)
            == (ths.last().1 as int) * klen(sget(w, ths.last().0))) by (nonlinear_arith);
    }
}

/// The weighted total after renormalization never exceeds one hundred.
pub proof fn lemma_wsum_le(ths: Seq<(u32, u32)>, w: Seq<(u32, Vec<u64>)>, total: int)
    requires
        total == tot_ths(ths, w),
        total >= 0,
    ensures
        wsum(ths, w, total) <= 100,
{
    if total <= 100 {
        lemma_wsum_eq_tot(ths, w, total);
    } else {
        lemma_wsum_div(ths, w, total);
        assert((100 * total) / total == 100) by {
            lemma_div_multiples_vanish(100, total);
            assert(total * 100 == 100 * total) by (nonlinear_arith);
        }
    }
}

/// Every effective percentage is nonnegative and at most the configured one.
pub proof fn lemma_eff_pct_bounds(p: int, k: int, total: int)
    requires
        0 <= p,
        0 <= k,
    ensures
        0 <= eff_pct(p, k, total) <= p,
{
    if total > 100 && k > 0 {
        lemma_new_pct_le(p, k, total);
    }
}

/// A prefix of the thresholds never outweighs the whole.
pub proof fn lemma_wsum_take_le(ths: Seq<(u32, u32)>, w: Seq<(u32, Vec<u64>)>, total: int, i: int)
    requires
        0 <= i <= ths.len(),
    ensures
        wsum(ths.take(i), w, total) <= wsum(ths, w, total),
    decreases ths.len(),
{
    if i == ths.len() {
        assert(ths.take(i) =~= ths);
    } else {
        assert(ths.take(i) =~= ths.drop_last().take(i));
        lemma_wsum_take_le(ths.drop_last(), w, total, i);
        let p = ths.last().1 as int;
        let k = klen(sget(w, ths.last().0));
        lemma_eff_pct_bounds(p, k, total);
        assert(k * eff_pct(p, k, total) >= 0) by (nonlinear_arith)
            requires
                k >= 0,
                eff_pct(p, k, total) >= 0,
        ;
    }
}

/// Each owed amount stays within the total owed when all are nonnegative.
pub proof fn lemma_sum_entry(s: Seq<(u64, i128)>, i: int)
    requires
        0 <= i < s.len(),
        forall|j: int| 0 <= j < s.len() ==> s[j].1 >= 0,
    ensures
        s[i].1 <= sum_amounts(s),
        sum_amounts(s) >= 0,
    decreases s.len(),
{
    assert(forall|j: int| 0 <= j < s.drop_last().len() ==> s.drop_last()[j] == s[j]);
    if s.len() == 0 {
    } else if i == s.len() - 1 {
        if s.len() > 1 {
            lemma_sum_entry(s.drop_last(), 0);
        } else {
            assert(sum_amounts(s.drop_last()) == 0);
        }
    } else {
        lemma_sum_entry(s.drop_last(), i);
    }
}

/// Each percentage stays within the set's total when all are nonnegative.
pub proof fn lemma_sum_pct_entry(s: Seq<(u32, u32)>, i: int)
    requires
        0 <= i < s.len(),
    ensures
        s[i].1 <= sum_pct(s),
        sum_pct(s) >= 0,
    decreases s.len(),
{
    assert(forall|j: int| 0 <= j < s.drop_last().len() ==> s.drop_last()[j] == s[j]);
    if i == s.len() - 1 {
        if s.len() > 1 {
            lemma_sum_pct_entry(s.drop_last(), 0);
        } else {
            assert(sum_pct(s.drop_last()) == 0);
        }
    } else {
        assert(s.drop_last()[i] == s[i]);
        lemma_sum_pct_entry(s.drop_last(), i);
    }
}

/// A prefix of the thresholds never carries more percentage than the whole.
proof fn lemma_sum_pct_take_le(s: Seq<(u32, u32)>, i: int)
    requires
        0 <= i <= s.len(),
    ensures
        sum_pct(s.take(i)) <= sum_pct(s),
    decreases s.len(),
{
    if i == s.len() {
        assert(s.take(i) =~= s);
    } else {
        assert(s.take(i) =~= s.drop_last().take(i));
        lemma_sum_pct_take_le(s.drop_last(), i);
    }
}

/// The total owed is empty-map zero and grows by each entry appended.
pub proof fn lemma_sum_amounts_push(s: Seq<(u64, i128)>, e: (u64, i128))
    ensures
        sum_amounts(s.push(e)) == sum_amounts(s) + e.1,
{
    assert(s.push(e).drop_last() =~= s);
}

/// Replacing one amount changes the total by exactly the difference.
pub proof fn lemma_sum_amounts_update(s: Seq<(u64, i128)>, i: int, v: i128)
    requires
        0 <= i < s.len(),
    ensures
        sum_amounts(s.update(i, (s[i].0, v))) == sum_amounts(s) - s[i].1 + v,
    decreases s.len(),
{
    let s2 = s.update(i, (s[i].0, v));
    if i == s.len() - 1 {
        assert(s2.drop_last() =~= s.drop_last());
    } else {
        lemma_sum_amounts_update(s.drop_last(), i, v);
        assert(s2.drop_last() =~= s.drop_last().update(i, (s[i].0, v)));
        assert(s2.last() == s.last());
    }
}

/// Copy of a threshold set, the working value a draw renormalizes.
pub fn copy_pairs(v: &Vec<(u32, u32)>) -> (r: Vec<(u32, u32)>)
    ensures
        r@ == v@,
{
    let mut r: Vec<(u32, u32)> = Vec::new();
    let mut i: usize = 0;
    while i < v.len()
        invariant
            i <= v@.len(),
            r@ == v@.take(i as int),
        decreases v@.len() - i,
    {
        r.push(v[i]);
        proof {
            assert(r@ =~= v@.take(i as int + 1));
        }
        i = i + 1;
    }
    proof {
        assert(v@.take(v@.len() as int) =~= v@);
    }
    r
}

/// The weighted percentage total: each tier with winners contributes its
/// percentage times its winner count.
#[verifier::loop_isolation(false)]
pub fn count_total_prizes_percentage(
    winners: &Vec<(u32, Vec<u64>)>,
    thresholds: &Vec<(u32, u32)>,
) -> (r: u64)
    requires
        keys_unique(winners@),
        sum_pct(thresholds@) <= 100,
        forall|i: int| 0 <= i < thresholds@.len() ==> (#[trigger] thresholds@[i]).1 <= 100,
        forall|i: int| 0 <= i < winners@.len() ==> (#[trigger] winners@[i]).1@.len() <= u32::MAX,
    ensures
        r as int == tot_ths(thresholds@, winners@),
{
    let mut acc: u64 = 0;
    let mut i: usize = 0;
    while i < thresholds.len()
        invariant
            i <= thresholds@.len(),
            acc as int == tot_ths(thresholds@.take(i as int), winners@),
            acc as int <= sum_pct(thresholds@.take(i as int)) * 0x1_0000_0000,
            sum_pct(thresholds@.take(i as int)) <= 100,
        decreases thresholds@.len() - i,
    {
        let t = thresholds[i].0;
        let p = thresholds[i].1;
        let k: u64 = match find_key_u32(winners, t) {
            Some(ix) => {
                proof {
                    lemma_sget_index(winners@, ix as int);
                }
                winners[ix].1.len() as u64
            },
            None => {
                proof {
                    lemma_shas_index(winners@, t);
                }
                0u64
            },
        };
        proof {
            assert(k as int == klen(sget(winners@, t)));
            assert(thresholds@.take(i as int + 1).drop_last() =~= thresholds@.take(i as int));
            assert(thresholds@.take(i as int + 1).last() == thresholds@[i as int]);
            assert(p as int * (k as int) <= 100 * 0x1_0000_0000) by (nonlinear_arith)
                requires
                    p <= 100,
                    0 <= k <= 0xFFFF_FFFFu64,
            ;
            assert(p as int * (k as int) <= (p as int) * 0x1_0000_0000) by (nonlinear_arith)
                requires
                    0 <= k <= 0xFFFF_FFFFu64,
                    p >= 0,
            ;
            assert(acc as int + p as int * (k as int)
                <= (sum_pct(thresholds@.take(i as int)) + p) * 0x1_0000_0000) by (nonlinear_arith)
                requires
                    acc as int <= sum_pct(thresholds@.take(i as int)) * 0x1_0000_0000,
                    p as int * (k as int) <= (p as int) * 0x1_0000_0000,
            ;
            assert(acc as int <= 100 * 0x1_0000_0000) by (nonlinear_arith)
                requires
                    acc as int <= sum_pct(thresholds@.take(i as int)) * 0x1_0000_0000,
                    sum_pct(thresholds@.take(i as int)) <= 100,
            ;
            lemma_sum_pct_take_le(thresholds@, i as int + 1);
        }
        acc = acc + (p as u64) * k;
        i = i + 1;
    }
    proof {
        assert(thresholds@.take(thresholds@.len() as int) =~= thresholds@);
    }
    acc
}

/// Renormalizes the working thresholds when the weighted total overcommits
/// the pool: tiers without winners are dropped, each tier with `k` winners
/// has its percentage rescaled proportionally and redivided among its
/// winners, flooring at each step.
#[verifier::loop_isolation(false)]
pub fn recalculate_new_thresholds(
    winners: &Vec<(u32, Vec<u64>)>,
    thresholds: &mut Vec<(u32, u32)>,
    total_prizes_percentage: u64,
)
    requires
        keys_unique(old(thresholds)@),
        keys_unique(winners@),
        forall|i: int| 0 <= i < old(thresholds)@.len() ==> (#[trigger] old(thresholds)@[i]).1 <= 100,
        forall|i: int| 0 <= i < winners@.len() ==> (#[trigger] winners@[i]).1@.len() <= u32::MAX,
    ensures
        total_prizes_percentage <= 100 ==> *final(thresholds) == *old(thresholds),
        total_prizes_percentage > 100 ==> {
            &&& keys_unique(final(thresholds)@)
            &&& forall|t: u32| #![trigger sget(final(thresholds)@, t)]
                shas(final(thresholds)@, t)
                    <==> (shas(old(thresholds)@, t) && klen(sget(winners@, t)) > 0)
            &&& forall|t: u32| #![trigger sget(final(thresholds)@, t)]
                shas(final(thresholds)@, t)
                    ==> sget(final(thresholds)@, t)->Some_0 as int == new_pct(
                        sget(old(thresholds)@, t)->Some_0 as int,
                        klen(sget(winners@, t)),
                        total_prizes_percentage as int,
                    )
            &&& forall|i: int| 0 <= i < final(thresholds)@.len() ==> (#[trigger] final(thresholds)@[i]).1 <= 100
        },
{
    if total_prizes_percentage <= 100 {
        return;
    }
    let ghost ths0 = thresholds@;
    let ghost tot = total_prizes_percentage as int;
    let mut out: Vec<(u32, u32)> = Vec::new();
    let mut i: usize = 0;
    while i < thresholds.len()
        invariant
            i <= ths0.len(),
            thresholds@ == ths0,
            keys_unique(out@),
            forall|t: u32| #![trigger sget(out@, t)]
                shas(out@, t) <==> exists|m: int|
                    0 <= m < i && ths0[m].0 == t && klen(sget(winners@, t)) > 0,
            forall|t: u32| #![trigger sget(out@, t)]
                shas(out@, t) ==> sget(out@, t)->Some_0 as int
                    == new_pct(sget(ths0, t)->Some_0 as int, klen(sget(winners@, t)), tot),
            forall|j: int| 0 <= j < out@.len() ==> (#[trigger] out@[j]).1 <= 100,
        decreases ths0.len() - i,
    {
        let t = thresholds[i].0;
        let p = thresholds[i].1;
        proof {
            lemma_sget_index(ths0, i as int);
        }
        let k: u64 = match find_key_u32(winners, t) {
            Some(ix) => {
                proof {
                    lemma_sget_index(winners@, ix as int);
                }
                winners[ix].1.len() as u64
            },
            None => {
                proof {
                    lemma_shas_index(winners@, t);
                }
                0u64
            },
        };
        proof {
            assert(k as int == klen(sget(winners@, t)));
        }
        let ghost prev = out@;
        if k > 0 {
            proof {
                assert(k as int * (p as int) * 100 <= 0x1_0000_0000 * 100 * 100)
                    by (nonlinear_arith)
                    requires
                        0 < k <= 0xFFFF_FFFFu64,
                        p <= 100,
                ;
                lemma_new_pct_le(p as int, k as int, tot);
            }
            let val: u64 = k * (p as u64) * 100 / total_prizes_percentage;
            let np64: u64 = val / k;
            proof {
                assert(np64 as int == new_pct(p as int, k as int, tot));
                assert(np64 <= 100);
                // the key is fresh: an entry for it would name an earlier
                // threshold with the same key
                if shas(out@, t) {
                    let m = choose|m: int|
                        0 <= m < i && ths0[m].0 == t && klen(sget(winners@, t)) > 0;
                    assert(ths0[m].0 == ths0[i as int].0);
                    assert(false);
                }
                lemma_sget_push(out@, (t, np64 as u32));
            }
            out.push((t, np64 as u32));
            proof {
                assert(keys_unique(out@)) by {
                    lemma_shas_index(prev, t);
                    assert(forall|j: int| 0 <= j < prev.len() ==> out@[j] == prev[j]);
                    assert(out@[out@.len() - 1].0 == t);
                }
                assert forall|q: u32| #![trigger sget(out@, q)]
                    shas(out@, q) <==> exists|m: int|
                        0 <= m < i + 1 && ths0[m].0 == q && klen(sget(winners@, q)) > 0 by {
                    if q == t {
                        assert(ths0[i as int].0 == q && klen(sget(winners@, q)) > 0);
                    } else {
                        if exists|m: int|
                            0 <= m < i + 1 && ths0[m].0 == q && klen(sget(winners@, q)) > 0 {
                            let m = choose|m: int|
                                0 <= m < i + 1 && ths0[m].0 == q && klen(sget(winners@, q)) > 0;
                            assert(m < i);
                        }
                    }
                }
            }
        } else {
            proof {
                assert forall|q: u32| #![trigger sget(out@, q)]
                    shas(out@, q) <==> exists|m: int|
                        0 <= m < i + 1 && ths0[m].0 == q && klen(sget(winners@, q)) > 0 by {
                    if exists|m: int|
                        0 <= m < i + 1 && ths0[m].0 == q && klen(sget(winners@, q)) > 0 {
                        let m = choose|m: int|
                            0 <= m < i + 1 && ths0[m].0 == q && klen(sget(winners@, q)) > 0;
                        if m == i {
                            assert(klen(sget(winners@, t)) > 0);
                            assert(false);
                        }
                    }
                }
            }
        }
        i = i + 1;
    }
    proof {
        assert forall|t: u32| #![trigger sget(out@, t)]
            shas(out@, t) <==> (shas(ths0, t) && klen(sget(winners@, t)) > 0) by {
            lemma_shas_index(ths0, t);
        }
    }
    *thresholds = out;
}

/// A nonnegative weighted total.
proof fn lemma_wsum_nonneg(ths: Seq<(u32, u32)>, w: Seq<(u32, Vec<u64>)>, total: int)
    ensures
        wsum(ths, w, total) >= 0,
    decreases ths.len(),
{
    if ths.len() == 0 {
    } else {
        lemma_wsum_nonneg(ths.drop_last(), w, total);
        let p = ths.last().1 as int;
        let k = klen(sget(w, ths.last().0));
        lemma_eff_pct_bounds(p, k, total);
        assert(k * eff_pct(p, k, total) >= 0) by (nonlinear_arith)
            requires
                k >= 0,
                eff_pct(p, k, total) >= 0,
        ;
    }
}

/// Converts the winner groups into per-participant owed amounts: weighs the
/// tier percentages by winner count, renormalizes the working thresholds
/// when the weighted total overcommits the pool, and accumulates each tier's
/// per-winner prize, the pool times the percentage over one hundred with
/// floor division. The total owed never exceeds the pool.
#[verifier::loop_isolation(false)]
#[verifier::rlimit(100)]
pub fn calculate_prizes(
    winners: &Vec<(u32, Vec<u64>)>,
    thresholds: &mut Vec<(u32, u32)>,
    pool: i128,
) -> (r: Vec<(u64, i128)>)
    requires
        keys_unique(old(thresholds)@),
        keys_unique(winners@),
        sum_pct(old(thresholds)@) <= 100,
        forall|i: int| 0 <= i < old(thresholds)@.len() ==> (#[trigger] old(thresholds)@[i]).1 <= 100,
        forall|i: int| 0 <= i < winners@.len() ==> (#[trigger] winners@[i]).1@.len() <= u32::MAX,
        0 <= pool <= i128::MAX as int / 100,
    ensures
        keys_unique(r@),
        forall|j: int| 0 <= j < r@.len() ==> (#[trigger] r@[j]).1 >= 0,
        forall|x: u64| #![trigger sget(r@, x)]
            amt(sget(r@, x)) == owed(
                old(thresholds)@, winners@, tot_ths(old(thresholds)@, winners@), pool as int, x),
        forall|x: u64| #![trigger sget(r@, x)]
            shas(r@, x) <==> appears(old(thresholds)@, winners@, x),
        sum_amounts(r@) <= pool as int,
        tot_ths(old(thresholds)@, winners@) <= 100 ==> *final(thresholds) == *old(thresholds),
{
    let ghost ths0 = thresholds@;
    let total = count_total_prizes_percentage(winners, thresholds);
    let ghost tt = total as int;
    let orig = copy_pairs(thresholds);
    recalculate_new_thresholds(winners, thresholds, total);
    proof {
        lemma_wsum_le(ths0, winners@, tt);
        lemma_wsum_nonneg(ths0, winners@, tt);
        assert(pool as int * 100 <= i128::MAX as int) by {
            lemma_fundamental_div_mod(i128::MAX as int, 100);
            assert(pool as int * 100 <= 100 * (i128::MAX as int / 100)) by (nonlinear_arith)
                requires
                    0 <= pool as int <= i128::MAX as int / 100,
            ;
        }
    }
    let mut prizes: Vec<(u64, i128)> = Vec::new();
    let mut i: usize = 0;
    while i < orig.len()
        invariant
            i <= ths0.len(),
            keys_unique(prizes@),
            forall|j: int| 0 <= j < prizes@.len() ==> (#[trigger] prizes@[j]).1 >= 0,
            forall|x: u64| #![trigger sget(prizes@, x)]
                amt(sget(prizes@, x)) == owed(ths0.take(i as int), winners@, tt, pool as int, x),
            forall|x: u64| #![trigger sget(prizes@, x)]
                shas(prizes@, x) <==> appears(ths0.take(i as int), winners@, x),
            sum_amounts(prizes@) <= pool as int * wsum(ths0.take(i as int), winners@, tt) / 100,
        decreases ths0.len() - i,
    {
        let t = orig[i].0;
        let ghost p_i = ths0[i as int].1;
        let ghost kk = klen(sget(winners@, t));
        let ghost effv = eff_pct(p_i as int, kk, tt);
        let ghost wpre = wsum(ths0.take(i as int), winners@, tt);
        proof {
            lemma_sget_index(ths0, i as int);
            assert(ths0.take(i as int + 1).drop_last() =~= ths0.take(i as int));
            assert(ths0.take(i as int + 1).last() == ths0[i as int]);
            lemma_eff_pct_bounds(p_i as int, kk, tt);
            lemma_wsum_take_le(ths0, winners@, tt, i as int + 1);
            lemma_wsum_nonneg(ths0.take(i as int), winners@, tt);
            assert(wsum(ths0.take(i as int + 1), winners@, tt) == wpre + kk * effv);
        }
        let popt = find_key_u32(thresholds, t);
        let wopt = find_key_u32(winners, t);
        if popt.is_some() && wopt.is_some() {
            let pix = popt.unwrap();
            let wix = wopt.unwrap();
            proof {
                lemma_sget_index(winners@, wix as int);
                if total > 100 {
                    lemma_sget_index(thresholds@, pix as int);
                } else {
                    lemma_sget_index(thresholds@, pix as int);
                }
            }
            let pp = thresholds[pix].1;
            proof {
                // the looked-up working percentage is the effective one
                if total <= 100 {
                    assert(thresholds@ == ths0);
                    assert(sget(ths0, t) == Some(p_i));
                    assert(pp == p_i);
                    assert(pp as int == effv);
                } else {
                    assert(shas(thresholds@, t));
                    assert(kk > 0);
                    assert(sget(ths0, t) == Some(p_i));
                    assert(pp as int == new_pct(p_i as int, kk, tt));
                    assert(pp as int == effv);
                }
                assert(0 <= effv <= 100);
                assert(pool as int * (pp as int) <= pool as int * 100) by (nonlinear_arith)
                    requires
                        0 <= pp as int <= 100,
                        pool >= 0,
                ;
            }
            let pr: i128 = pool * (pp as i128) / 100;
            proof {
                assert(pr as int == pool as int * effv / 100);
                lemma_div_pos_is_pos(pool as int * (pp as int), 100);
                lemma_div_is_ordered(pool as int * (pp as int), pool as int * 100, 100);
                assert((100 * (pool as int)) / 100 == pool as int) by {
                    lemma_div_multiples_vanish(pool as int, 100);
                }
                assert(pool as int * 100 == 100 * (pool as int)) by (nonlinear_arith);
                assert(0 <= pr <= pool);
            }
            let ghost lseq = winners@[wix as int].1@;
            proof {
                assert(sget(winners@, t) == Some(winners@[wix as int].1));
                assert(kk == lseq.len());
            }
            let mut j: usize = 0;
            while j < winners[wix].1.len()
                invariant
                    j <= lseq.len(),
                    keys_unique(prizes@),
                    forall|q: int| 0 <= q < prizes@.len() ==> (#[trigger] prizes@[q]).1 >= 0,
                    forall|x: u64| #![trigger sget(prizes@, x)]
                        amt(sget(prizes@, x)) == owed(ths0.take(i as int), winners@, tt,
                            pool as int, x) + cnt(lseq.take(j as int), x) * (pr as int),
                    forall|x: u64| #![trigger sget(prizes@, x)]
                        shas(prizes@, x) <==> (appears(ths0.take(i as int), winners@, x)
                            || cnt(lseq.take(j as int), x) > 0),
                    sum_amounts(prizes@)
                        <= pool as int * (wpre + j as int * effv) / 100,
                decreases lseq.len() - j,
            {
                let a = winners[wix].1[j];
                proof {
                    assert(lseq.take(j as int + 1).drop_last() =~= lseq.take(j as int));
                    assert(lseq.take(j as int + 1).last() == lseq[j as int]);
                    // one more prize still fits under the pool
                    assert((j as int + 1) * effv <= kk * effv) by (nonlinear_arith)
                        requires
                            j as int + 1 <= kk,
                            effv >= 0,
                    ;
                    assert(j as int * effv >= 0) by (nonlinear_arith)
                        requires
                            j as int >= 0,
                            effv >= 0,
                    ;
                    assert(wpre + (j as int + 1) * effv <= 100);
                    assert(pool as int * (wpre + j as int * effv) >= 0) by (nonlinear_arith)
                        requires
                            pool >= 0,
                            wpre + j as int * effv >= 0,
                    ;
                    assert(pool as int * effv >= 0) by (nonlinear_arith)
                        requires
                            pool >= 0,
                            effv >= 0,
                    ;
                    lemma_div_add_le(pool as int * (wpre + j as int * effv),
                        pool as int * effv, 100);
                    assert(pool as int * (wpre + j as int * effv) + pool as int * effv
                        == pool as int * (wpre + (j as int + 1) * effv)) by (nonlinear_arith);
                    assert(pool as int * (wpre + (j as int + 1) * effv)
                        <= pool as int * 100) by (nonlinear_arith)
                        requires
                            wpre + (j as int + 1) * effv <= 100,
                            pool >= 0,
                    ;
                    lemma_div_is_ordered(pool as int * (wpre + (j as int + 1) * effv),
                        pool as int * 100, 100);
                    assert((100 * (pool as int)) / 100 == pool as int) by {
                        lemma_div_multiples_vanish(pool as int, 100);
                    }
                    assert(pool as int * 100 == 100 * (pool as int)) by (nonlinear_arith);
                    assert(sum_amounts(prizes@) + pr as int
                        <= pool as int * (wpre + (j as int + 1) * effv) / 100);
                    assert(sum_amounts(prizes@) + pr as int <= pool as int);
                }
                match find_key_u64(&prizes, a) {
                    Some(pidx) => {
                        proof {
                            lemma_sum_entry(prizes@, pidx as int);
                            lemma_sget_index(prizes@, pidx as int);
                        }
                        let cur = prizes[pidx].1;
                        let newv = cur + pr;
                        let ghost before = prizes@;
                        let entry = prizes.remove(pidx);
                        prizes.insert(pidx, (a, newv));
                        proof {
                            assert(prizes@ =~= before.update(pidx as int, (a, newv)));
                            lemma_sget_update(before, pidx as int, newv);
                            lemma_sum_amounts_update(before, pidx as int, newv);
                            assert forall|x: u64| #![trigger sget(prizes@, x)]
                                amt(sget(prizes@, x)) == owed(ths0.take(i as int), winners@, tt,
                                    pool as int, x)
                                    + cnt(lseq.take(j as int + 1), x) * (pr as int) by {
                                if x == a {
                                    assert(amt(sget(prizes@, x)) == newv as int);
                                    assert(cnt(lseq.take(j as int + 1), x)
                                        == cnt(lseq.take(j as int), x) + 1);
                                    assert((cnt(lseq.take(j as int), x) + 1) * (pr as int)
                                        == cnt(lseq.take(j as int), x) * (pr as int) + pr as int)
                                        by (nonlinear_arith);
                                } else {
                                    assert(sget(prizes@, x) == sget(before, x));
                                    assert(cnt(lseq.take(j as int + 1), x)
                                        == cnt(lseq.take(j as int), x));
                                }
                            }
                            assert forall|x: u64| #![trigger sget(prizes@, x)]
                                shas(prizes@, x) <==> (appears(ths0.take(i as int), winners@, x)
                                    || cnt(lseq.take(j as int + 1), x) > 0) by {
                                if x == a {
                                    lemma_cnt_nonneg(lseq.take(j as int), x);
                                    assert(cnt(lseq.take(j as int + 1), x) > 0);
                                } else {
                                    assert(sget(prizes@, x) == sget(before, x));
                                }
                            }
                        }
                    },
                    None => {
                        proof {
                            lemma_shas_index(prizes@, a);
                        }
                        let ghost before = prizes@;
                        prizes.push((a, pr));
                        proof {
                            lemma_sget_push(before, (a, pr));
                            lemma_sum_amounts_push(before, (a, pr));
                            assert(keys_unique(prizes@)) by {
                                assert(forall|q: int| 0 <= q < before.len()
                                    ==> prizes@[q] == before[q]);
                                assert(prizes@[prizes@.len() - 1] == (a, pr));
                            }
                            assert forall|x: u64| #![trigger sget(prizes@, x)]
                                amt(sget(prizes@, x)) == owed(ths0.take(i as int), winners@, tt,
                                    pool as int, x)
                                    + cnt(lseq.take(j as int + 1), x) * (pr as int) by {
                                if x == a {
                                    assert(amt(sget(before, x)) == 0);
                                    assert(cnt(lseq.take(j as int + 1), x)
                                        == cnt(lseq.take(j as int), x) + 1);
                                    assert((cnt(lseq.take(j as int), x) + 1) * (pr as int)
                                        == cnt(lseq.take(j as int), x) * (pr as int) + pr as int)
                                        by (nonlinear_arith);
                                } else {
                                    assert(sget(prizes@, x) == sget(before, x));
                                    assert(cnt(lseq.take(j as int + 1), x)
                                        == cnt(lseq.take(j as int), x));
                                }
                            }
                            assert forall|x: u64| #![trigger sget(prizes@, x)]
                                shas(prizes@, x) <==> (appears(ths0.take(i as int), winners@, x)
                                    || cnt(lseq.take(j as int + 1), x) > 0) by {
                                if x == a {
                                    lemma_cnt_nonneg(lseq.take(j as int), x);
                                    assert(cnt(lseq.take(j as int + 1), x) > 0);
                                } else {
                                    assert(sget(prizes@, x) == sget(before, x));
                                }
                            }
                        }
                    },
                }
                j = j + 1;
            }
            proof {
                assert(lseq.take(lseq.len() as int) =~= lseq);
                assert(sget(winners@, t) is Some);
                assert forall|x: u64| #![trigger sget(prizes@, x)]
                    amt(sget(prizes@, x))
                        == owed(ths0.take(i as int + 1), winners@, tt, pool as int, x) by {
                    assert(lcnt(sget(winners@, t), x) == cnt(lseq, x));
                }
                assert forall|x: u64| #![trigger sget(prizes@, x)]
                    shas(prizes@, x) <==> appears(ths0.take(i as int + 1), winners@, x) by {
                    assert(lcnt(sget(winners@, t), x) == cnt(lseq, x));
                }
            }
        } else {
            proof {
                // a skipped tier pays nobody: either no winner group carries
                // this tier, or renormalization dropped it for want of winners
                if popt.is_none() {
                    lemma_shas_index(thresholds@, t);
                    if total <= 100 {
                        assert(thresholds@ == ths0);
                        assert(sget(ths0, t) == Some(p_i));
                        assert(false);
                    } else {
                        assert(!shas(thresholds@, t));
                        assert(shas(ths0, t));
                        assert(kk == 0);
                    }
                } else {
                    lemma_shas_index(winners@, t);
                    assert(sget(winners@, t) is None);
                    assert(kk == 0);
                }
                assert(kk * effv == 0) by (nonlinear_arith)
                    requires kk == 0,
                ;
                assert forall|x: u64| lcnt(#[trigger] sget(winners@, t), x) == 0 by {
                    if sget(winners@, t) is Some {
                        let l = sget(winners@, t)->Some_0;
                        assert(l@.len() == 0);
                    }
                }
                assert forall|x: u64| #![trigger sget(prizes@, x)]
                    amt(sget(prizes@, x))
                        == owed(ths0.take(i as int + 1), winners@, tt, pool as int, x) by {
                    assert(lcnt(sget(winners@, t), x) == 0);
                }
                assert forall|x: u64| #![trigger sget(prizes@, x)]
                    shas(prizes@, x) <==> appears(ths0.take(i as int + 1), winners@, x) by {
                    assert(lcnt(sget(winners@, t), x) == 0);
                }
            }
        }
        i = i + 1;
    }
    proof {
        assert(ths0.take(ths0.len() as int) =~= ths0);
        assert(pool as int * wsum(ths0, winners@, tt) <= pool as int * 100) by (nonlinear_arith)
            requires
                wsum(ths0, winners@, tt) <= 100,
                pool >= 0,
        ;
        lemma_div_is_ordered(pool as int * wsum(ths0, winners@, tt), pool as int * 100, 100);
        assert((100 * (pool as int)) / 100 == pool as int) by {
            lemma_div_multiples_vanish(pool as int, 100);
        }
        assert(pool as int * 100 == 100 * (pool as int)) by (nonlinear_arith);
    }
    prizes
}

/// The owed entries a payout performs: those with a positive amount, in the
/// owed map's order.
pub open spec fn positive_amounts(s: Seq<(u64, i128)>) -> Seq<(u64, i128)>
    decreases s.len(),
{
    if s.len() == 0 {
        Seq::empty()
    } else {
        positive_amounts(s.drop_last()) + if s.last().1 > 0 {
            seq![s.last()]
        } else {
            Seq::empty()
        }
    }
}

/// Selects the transfers a payout makes: every participant owed a positive
/// amount is paid exactly once, in the owed map's order.
pub fn disbursements(prizes: &Vec<(u64, i128)>) -> (r: Vec<(u64, i128)>)
    ensures
        r@ == positive_amounts(prizes@),
{
    let mut r: Vec<(u64, i128)> = Vec::new();
    let mut i: usize = 0;
    while i < prizes.len()
        invariant
            i <= prizes@.len(),
            r@ == positive_amounts(prizes@.take(i as int)),
        decreases prizes@.len() - i,
    {
        proof {
            assert(prizes@.take(i as int + 1).drop_last() =~= prizes@.take(i as int));
            assert(prizes@.take(i as int + 1).last() == prizes@[i as int]);
        }
        if prizes[i].1 > 0 {
            r.push(prizes[i]);
            proof {
                assert(r@ =~= positive_amounts(prizes@.take(i as int + 1)));
            }
        } else {
            proof {
                assert(r@ =~= positive_amounts(prizes@.take(i as int + 1)));
            }
        }
        i = i + 1;
    }
    proof {
        assert(prizes@.take(prizes@.len() as int) =~= prizes@);
    }
    r
}

} // verus!
