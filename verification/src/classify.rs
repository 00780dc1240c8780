//! The winner classifier: counts matches per ticket and groups winning
//! participants by match count, restricted to the configured tiers.

use vstd::prelude::*;
use crate::assoc::keys_unique;
use crate::draw::vec_contains_u32;

verus! {

/// How many drawn values appear in a ticket. Membership counts once per
/// distinct drawn value: a repeated number in a ticket earns no extra match.
pub open spec fn match_count(d: Seq<u32>, ticket: Seq<u32>) -> int
    decreases d.len(),
{
    if d.len() == 0 {
        0
    } else {
        match_count(d.drop_last(), ticket) + if ticket.contains(d.last()) {
            1int
        } else {
            0int
        }
    }
}

/// Total number of (participant, ticket) pairs in a ledger.
pub open spec fn total_pairs(ledger: Seq<(u64, Vec<Vec<u32>>)>) -> int
    decreases ledger.len(),
{
    if ledger.len() == 0 {
        0
    } else {
        total_pairs(ledger.drop_last()) + ledger.last().1@.len()
    }
}

/// One participant's occurrences among tier `t`'s winners: once per ticket of
/// theirs matching exactly `t` drawn values, in purchase order.
pub open spec fn tier_winners_one(a: u64, ts: Seq<Vec<u32>>, d: Seq<u32>, t: u32) -> Seq<u64>
    decreases ts.len(),
{
    if ts.len() == 0 {
        Seq::empty()
    } else {
        tier_winners_one(a, ts.drop_last(), d, t) + if match_count(d, ts.last()@) == t as int {
            seq![a]
        } else {
            Seq::empty()
        }
    }
}

/// All winners of tier `t`, in ledger order, multiplicity preserved.
pub open spec fn tier_winners(ledger: Seq<(u64, Vec<Vec<u32>>)>, d: Seq<u32>, t: u32) -> Seq<u64>
    decreases ledger.len(),
{
    if ledger.len() == 0 {
        Seq::empty()
    } else {
        tier_winners(ledger.drop_last(), d, t)
            + tier_winners_one(ledger.last().0, ledger.last().1@, d, t)
    }
}

/// The classification: one entry per configured tier with at least one
/// winner, in threshold order, carrying that tier's winners.
pub open spec fn winners_spec(
    thresholds: Seq<(u32, u32)>,
    ledger: Seq<(u64, Vec<Vec<u32>>)>,
    d: Seq<u32>,
) -> Seq<(u32, Seq<u64>)>
    decreases thresholds.len(),
{
    if thresholds.len() == 0 {
        Seq::empty()
    } else {
        winners_spec(thresholds.drop_last(), ledger, d)
            + if tier_winners(ledger, d, thresholds.last().0).len() > 0 {
                seq![(thresholds.last().0, tier_winners(ledger, d, thresholds.last().0))]
            } else {
                Seq::empty()
            }
    }
}

/// The computed winner groups agree entrywise with the classification.
pub open spec fn winners_match(w: Seq<(u32, Vec<u64>)>, ws: Seq<(u32, Seq<u64>)>) -> bool {
    &&& w.len() == ws.len()
    &&& forall|i: int| 0 <= i < w.len() ==> #[trigger] w[i].0 == ws[i].0 && w[i].1@ == ws[i].1
}

/// Matches between the draw and one ticket, counted by membership.
pub fn count_matches(drawn_numbers: &Vec<u32>, player_ticket: &Vec<u32>) -> (r: u32)
    requires
        drawn_numbers@.len() <= u32::MAX,
    ensures
        r as int == match_count(drawn_numbers@, player_ticket@),
{
    let mut count: u32 = 0;
    let mut i: usize = 0;
    while i < drawn_numbers.len()
        invariant
            i <= drawn_numbers@.len() <= u32::MAX,
            count as int == match_count(drawn_numbers@.take(i as int), player_ticket@),
            count <= i,
        decreases drawn_numbers@.len() - i,
    {
        proof {
            assert(drawn_numbers@.take(i as int + 1).drop_last() =~= drawn_numbers@.take(i as int));
            assert(drawn_numbers@.take(i as int + 1).last() == drawn_numbers@[i as int]);
        }
        if vec_contains_u32(player_ticket, drawn_numbers[i]) {
            count = count + 1;
        }
        i = i + 1;
    }
    proof {
        assert(drawn_numbers@.take(drawn_numbers@.len() as int) =~= drawn_numbers@);
    }
    count
}

/// Winners of one tier, scanning every (participant, ticket) pair in order.
fn collect_tier(ledger: &Vec<(u64, Vec<Vec<u32>>)>, drawn: &Vec<u32>, t: u32) -> (r: Vec<u64>)
    requires
        drawn@.len() <= u32::MAX,
    ensures
        r@ == tier_winners(ledger@, drawn@, t),
{
    let mut r: Vec<u64> = Vec::new();
    let mut i: usize = 0;
    while i < ledger.len()
        invariant
            i <= ledger@.len(),
            drawn@.len() <= u32::MAX,
            r@ == tier_winners(ledger@.take(i as int), drawn@, t),
        decreases ledger@.len() - i,
    {
        let a = ledger[i].0;
        let mut j: usize = 0;
        while j < ledger[i].1.len()
            invariant
                i < ledger@.len(),
                j <= ledger@[i as int].1@.len(),
                drawn@.len() <= u32::MAX,
                a == ledger@[i as int].0,
                r@ == tier_winners(ledger@.take(i as int), drawn@, t)
                    + tier_winners_one(a, ledger@[i as int].1@.take(j as int), drawn@, t),
            decreases ledger@[i as int].1@.len() - j,
        {
            proof {
                assert(ledger@[i as int].1@.take(j as int + 1).drop_last()
                    =~= ledger@[i as int].1@.take(j as int));
                assert(ledger@[i as int].1@.take(j as int + 1).last()
                    == ledger@[i as int].1@[j as int]);
            }
            let mc = count_matches(drawn, &ledger[i].1[j]);
            if mc == t {
                r.push(a);
                proof {
                    assert(r@ =~= tier_winners(ledger@.take(i as int), drawn@, t)
                        + tier_winners_one(a, ledger@[i as int].1@.take(j as int + 1), drawn@, t));
                }
            } else {
                proof {
                    assert(r@ =~= tier_winners(ledger@.take(i as int), drawn@, t)
                        + tier_winners_one(a, ledger@[i as int].1@.take(j as int + 1), drawn@, t));
                }
            }
            j = j + 1;
        }
        proof {
            assert(ledger@[i as int].1@.take(ledger@[i as int].1@.len() as int)
                =~= ledger@[i as int].1@);
            assert(ledger@.take(i as int + 1).drop_last() =~= ledger@.take(i as int));
            assert(ledger@.take(i as int + 1).last() == ledger@[i as int]);
            assert(r@ =~= tier_winners(ledger@.take(i as int + 1), drawn@, t));
        }
        i = i + 1;
    }
    proof {
        assert(ledger@.take(ledger@.len() as int) =~= ledger@);
    }
    r
}

/// Groups winning participants by match count over the configured tiers.
pub fn get_winners(
    drawn_numbers: &Vec<u32>,
    tickets: &Vec<(u64, Vec<Vec<u32>>)>,
    thresholds: &Vec<(u32, u32)>,
) -> (r: Vec<(u32, Vec<u64>)>)
    requires
        drawn_numbers@.len() <= u32::MAX,
    ensures
        winners_match(r@, winners_spec(thresholds@, tickets@, drawn_numbers@)),
{
    let mut r: Vec<(u32, Vec<u64>)> = Vec::new();
    let mut i: usize = 0;
    while i < thresholds.len()
        invariant
            i <= thresholds@.len(),
            drawn_numbers@.len() <= u32::MAX,
            winners_match(r@, winners_spec(thresholds@.take(i as int), tickets@, drawn_numbers@)),
        decreases thresholds@.len() - i,
    {
        proof {
            assert(thresholds@.take(i as int + 1).drop_last() =~= thresholds@.take(i as int));
            assert(thresholds@.take(i as int + 1).last() == thresholds@[i as int]);
        }
        let t = thresholds[i].0;
        let lst = collect_tier(tickets, drawn_numbers, t);
        let ghost prev = r@;
        if lst.len() > 0 {
            r.push((t, lst));
        }
        proof {
            let ws0 = winners_spec(thresholds@.take(i as int), tickets@, drawn_numbers@);
            let ws1 = winners_spec(thresholds@.take(i as int + 1), tickets@, drawn_numbers@);
            let tw = tier_winners(tickets@, drawn_numbers@, t);
            if tw.len() > 0 {
                assert(ws1 == ws0 + seq![(t, tw)]);
                assert(ws1.len() == ws0.len() + 1);
                assert(r@.len() == prev.len() + 1);
            } else {
                assert(ws1 =~= ws0);
                assert(r@ == prev);
            }
            assert forall|k: int| 0 <= k < r@.len()
                implies #[trigger] r@[k].0 == ws1[k].0 && r@[k].1@ == ws1[k].1 by {
                if k < prev.len() as int {
                    assert(r@[k] == prev[k]);
                    assert(ws1[k] == ws0[k]);
                } else {
                    assert(r@[k] == (t, lst));
                    assert(ws1[k] == (t, tw));
                }
            }
        }
        i = i + 1;
    }
    proof {
        assert(thresholds@.take(thresholds@.len() as int) =~= thresholds@);
    }
    r
}

/// Classified tiers carry distinct configured keys and non-empty winner
/// groups: exactly the tiers of `thresholds` that won, each exactly once.
pub proof fn lemma_winners_spec_props(
    thresholds: Seq<(u32, u32)>,
    ledger: Seq<(u64, Vec<Vec<u32>>)>,
    d: Seq<u32>,
)
    requires
        keys_unique(thresholds),
    ensures
        keys_unique(winners_spec(thresholds, ledger, d)),
        forall|i: int| 0 <= i < winners_spec(thresholds, ledger, d).len()
            ==> (#[trigger] winners_spec(thresholds, ledger, d)[i]).1.len() >= 1
                && winners_spec(thresholds, ledger, d)[i].1
                    == tier_winners(ledger, d, winners_spec(thresholds, ledger, d)[i].0)
                && exists|j: int| 0 <= j < thresholds.len()
                    && thresholds[j].0 == winners_spec(thresholds, ledger, d)[i].0,
    decreases thresholds.len(),
{
    if thresholds.len() == 0 {
    } else {
        assert(keys_unique(thresholds.drop_last())) by {
            assert(forall|m: int, n: int| 0 <= m < n < thresholds.drop_last().len()
                ==> thresholds.drop_last()[m] == thresholds[m]
                    && thresholds.drop_last()[n] == thresholds[n]);
        }
        lemma_winners_spec_props(thresholds.drop_last(), ledger, d);
        let ws0 = winners_spec(thresholds.drop_last(), ledger, d);
        let ws = winners_spec(thresholds, ledger, d);
        let tl = thresholds.last().0;
        assert forall|i: int| 0 <= i < ws.len()
            implies (#[trigger] ws[i]).1.len() >= 1
                && ws[i].1 == tier_winners(ledger, d, ws[i].0)
                && exists|j: int| 0 <= j < thresholds.len() && thresholds[j].0 == ws[i].0 by {
            if i < ws0.len() as int {
                assert(ws[i] == ws0[i]);
                let j = choose|j: int| 0 <= j < thresholds.drop_last().len()
                    && thresholds.drop_last()[j].0 == ws0[i].0;
                assert(thresholds[j].0 == ws[i].0);
            } else {
                assert(ws[i] == (tl, tier_winners(ledger, d, tl)));
                assert(thresholds[thresholds.len() - 1].0 == ws[i].0);
            }
        }
        assert forall|p: int, q: int| 0 <= p < q < ws.len() implies ws[p].0 != ws[q].0 by {
            if q < ws0.len() as int {
                assert(ws[p] == ws0[p] && ws[q] == ws0[q]);
            } else {
                assert(ws[p] == ws0[p]);
                assert(ws[q].0 == tl);
                let j = choose|j: int| 0 <= j < thresholds.drop_last().len()
                    && thresholds.drop_last()[j].0 == ws0[p].0;
                assert(thresholds[j].0 == ws0[p].0);
                assert(thresholds[j].0 != thresholds[thresholds.len() - 1].0);
            }
        }
    }
}

/// No tier's winner group outgrows the ledger's pair count.
pub proof fn lemma_tier_winners_len(ledger: Seq<(u64, Vec<Vec<u32>>)>, d: Seq<u32>, t: u32)
    ensures
        0 <= tier_winners(ledger, d, t).len() <= total_pairs(ledger),
    decreases ledger.len(),
{
    if ledger.len() == 0 {
    } else {
        lemma_tier_winners_len(ledger.drop_last(), d, t);
        lemma_tier_winners_one_len(ledger.last().0, ledger.last().1@, d, t);
    }
}

proof fn lemma_tier_winners_one_len(a: u64, ts: Seq<Vec<u32>>, d: Seq<u32>, t: u32)
    ensures
        0 <= tier_winners_one(a, ts, d, t).len() <= ts.len(),
    decreases ts.len(),
{
    if ts.len() == 0 {
    } else {
        lemma_tier_winners_one_len(a, ts.drop_last(), d, t);
    }
}

/// No participant's ticket list outgrows the ledger's pair count.
pub proof fn lemma_total_pairs_entry(ledger: Seq<(u64, Vec<Vec<u32>>)>, i: int)
    requires
        0 <= i < ledger.len(),
    ensures
        ledger[i].1@.len() <= total_pairs(ledger),
        total_pairs(ledger) >= 0,
    decreases ledger.len(),
{
    assert(forall|j: int| 0 <= j < ledger.drop_last().len() ==> ledger.drop_last()[j] == ledger[j]);
    if i == ledger.len() - 1 {
        if ledger.len() > 1 {
            lemma_total_pairs_entry(ledger.drop_last(), 0);
        } else {
            assert(total_pairs(ledger.drop_last()) == 0);
        }
    } else {
        assert(ledger.drop_last()[i] == ledger[i]);
        lemma_total_pairs_entry(ledger.drop_last(), i);
    }
}

/// Replacing one participant's tickets changes the pair count by the
/// difference in list lengths.
pub proof fn lemma_total_pairs_update(ledger: Seq<(u64, Vec<Vec<u32>>)>, i: int, l: Vec<Vec<u32>>)
    requires
        0 <= i < ledger.len(),
    ensures
        total_pairs(ledger.update(i, (ledger[i].0, l)))
            == total_pairs(ledger) - ledger[i].1@.len() + l@.len(),
    decreases ledger.len(),
{
    let s2 = ledger.update(i, (ledger[i].0, l));
    if i == ledger.len() - 1 {
        assert(s2.drop_last() =~= ledger.drop_last());
    } else {
        assert(ledger.drop_last()[i] == ledger[i]);
        lemma_total_pairs_update(ledger.drop_last(), i, l);
        assert(s2.drop_last() =~= ledger.drop_last().update(i, (ledger[i].0, l)));
        assert(s2.last() == ledger.last());
    }
}

/// A new participant's tickets add their count to the pair count.
pub proof fn lemma_total_pairs_push(ledger: Seq<(u64, Vec<Vec<u32>>)>, e: (u64, Vec<Vec<u32>>))
    ensures
        total_pairs(ledger.push(e)) == total_pairs(ledger) + e.1@.len(),
{
    assert(ledger.push(e).drop_last() =~= ledger);
}

} // verus!
