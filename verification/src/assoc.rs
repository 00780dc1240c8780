//! Association lists: sequences of key/value pairs with pairwise-distinct
//! keys, used as the engine's maps (tickets per participant, percentage per
//! tier, archived draw per round, owed amount per winner).

use vstd::prelude::*;

verus! {

/// The value bound to key `k`, scanning from the back.
pub open spec fn sget<K, V>(s: Seq<(K, V)>, k: K) -> Option<V>
    decreases s.len(),
{
    if s.len() == 0 {
        None
    } else if s.last().0 == k {
        Some(s.last().1)
    } else {
        sget(s.drop_last(), k)
    }
}

/// Whether some entry carries key `k`.
pub open spec fn shas<K, V>(s: Seq<(K, V)>, k: K) -> bool {
    sget(s, k) is Some
}

/// No two entries share a key.
pub open spec fn keys_unique<K, V>(s: Seq<(K, V)>) -> bool {
    forall|i: int, j: int| 0 <= i < j < s.len() ==> s[i].0 != s[j].0
}

/// A key is present exactly when some entry carries it.
pub proof fn lemma_shas_index<K, V>(s: Seq<(K, V)>, k: K)
    ensures
        shas(s, k) <==> exists|i: int| 0 <= i < s.len() && s[i].0 == k,
    decreases s.len(),
{
    if s.len() == 0 {
    } else if s.last().0 == k {
        assert(s[s.len() - 1].0 == k);
    } else {
        lemma_shas_index(s.drop_last(), k);
        if shas(s, k) {
            let i = choose|i: int| 0 <= i < s.drop_last().len() && s.drop_last()[i].0 == k;
            assert(s[i].0 == k);
        }
        if exists|i: int| 0 <= i < s.len() && s[i].0 == k {
            let i = choose|i: int| 0 <= i < s.len() && s[i].0 == k;
            assert(i < s.len() - 1);
            assert(s.drop_last()[i].0 == k);
        }
    }
}

/// With pairwise-distinct keys, the entry at any index is the one `sget` finds.
pub proof fn lemma_sget_index<K, V>(s: Seq<(K, V)>, i: int)
    requires
        keys_unique(s),
        0 <= i < s.len(),
    ensures
        sget(s, s[i].0) == Some(s[i].1),
    decreases s.len(),
{
    if i == s.len() - 1 {
    } else {
        assert(s[i].0 != s[s.len() - 1].0);
        assert(keys_unique(s.drop_last())) by {
            assert(forall|m: int, n: int|
                0 <= m < n < s.drop_last().len() ==> s.drop_last()[m] == s[m] && s.drop_last()[n] == s[n]);
        }
        assert(s.drop_last()[i] == s[i]);
        lemma_sget_index(s.drop_last(), i);
    }
}

/// Looking anything up after appending an entry with a fresh key.
pub proof fn lemma_sget_push<K, V>(s: Seq<(K, V)>, e: (K, V))
    ensures
        forall|k: K| #[trigger] sget(s.push(e), k) == if k == e.0 { Some(e.1) } else { sget(s, k) },
{
    assert(s.push(e).drop_last() =~= s);
    assert(s.push(e).last() == e);
}

/// Looking anything up after replacing the value at index `i`, key kept.
pub proof fn lemma_sget_update<K, V>(s: Seq<(K, V)>, i: int, v: V)
    requires
        keys_unique(s),
        0 <= i < s.len(),
    ensures
        forall|k: K| #[trigger] sget(s.update(i, (s[i].0, v)), k)
            == if k == s[i].0 { Some(v) } else { sget(s, k) },
        keys_unique(s.update(i, (s[i].0, v))),
    decreases s.len(),
{
    let e = (s[i].0, v);
    let s2 = s.update(i, e);
    assert(forall|j: int| 0 <= j < s.len() ==> #[trigger] s2[j].0 == s[j].0);
    if i == s.len() - 1 {
        assert(s2.drop_last() =~= s.drop_last());
        assert(s2.last() == e);
        assert forall|k: K| #[trigger] sget(s2, k) == if k == s[i].0 { Some(v) } else { sget(s, k) } by {
            if k == s[i].0 {
            } else {
                assert(sget(s2, k) == sget(s2.drop_last(), k));
                assert(sget(s, k) == sget(s.drop_last(), k));
            }
        }
    } else {
        assert(keys_unique(s.drop_last())) by {
            assert(forall|m: int, n: int|
                0 <= m < n < s.drop_last().len() ==> s.drop_last()[m] == s[m] && s.drop_last()[n] == s[n]);
        }
        assert(s.drop_last()[i] == s[i]);
        lemma_sget_update(s.drop_last(), i, v);
        assert(s2.drop_last() =~= s.drop_last().update(i, e));
        assert(s2.last() == s.last());
        assert forall|k: K| #[trigger] sget(s2, k) == if k == s[i].0 { Some(v) } else { sget(s, k) } by {
            if k == s[i].0 {
                assert(s[i].0 != s[s.len() - 1].0);
                assert(sget(s2, k) == sget(s2.drop_last(), k));
            } else if k == s.last().0 {
            } else {
                assert(sget(s2, k) == sget(s2.drop_last(), k));
                assert(sget(s, k) == sget(s.drop_last(), k));
            }
        }
    }
}

/// Index of the entry carrying key `k` in a vector keyed by `u32`.
pub fn find_key_u32<V>(m: &Vec<(u32, V)>, k: u32) -> (r: Option<usize>)
    ensures
        match r {
            Some(i) => i < m@.len() && m@[i as int].0 == k,
            None => forall|i: int| 0 <= i < m@.len() ==> m@[i].0 != k,
        },
{
    let mut i: usize = 0;
    while i < m.len()
        invariant
            i <= m@.len(),
            forall|j: int| 0 <= j < i ==> m@[j].0 != k,
        decreases m@.len() - i,
    {
        if m[i].0 == k {
            return Some(i);
        }
        i = i + 1;
    }
    None
}

/// Index of the entry carrying key `k` in a vector keyed by `u64`.
pub fn find_key_u64<V>(m: &Vec<(u64, V)>, k: u64) -> (r: Option<usize>)
    ensures
        match r {
            Some(i) => i < m@.len() && m@[i as int].0 == k,
            None => forall|i: int| 0 <= i < m@.len() ==> m@[i].0 != k,
        },
{
    let mut i: usize = 0;
    while i < m.len()
        invariant
            i <= m@.len(),
            forall|j: int| 0 <= j < i ==> m@[j].0 != k,
        decreases m@.len() - i,
    {
        if m[i].0 == k {
            return Some(i);
        }
        i = i + 1;
    }
    None
}

} // verus!
