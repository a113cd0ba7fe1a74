//! Canonical state identity — the lattice search's dedup key.
//!
//! Identity is the canonical representation itself, never a hash of it:
//! [`state_key`] is the sorted fact list and every identity site keys on it
//! directly, so a collision costs a comparison, not a wrong answer.
//! [`state_digest`] exists for display only.
use vstd::prelude::*;

use crate::apriori::{canonicalise, strictly_sorted};

verus! {

/// The order-insensitive canonical key of a KB's facts: its fact ids,
/// sorted. A KB holds each fact once. Argument order inside a fact is part
/// of the fact's id, so only the outer list is sorted.
pub fn state_key(facts: &Vec<u32>) -> (key: Vec<u32>)
    requires
        facts@.no_duplicates(),
    ensures
        strictly_sorted(key@),
        forall|f: u32| key@.contains(f) <==> facts@.contains(f),
{
    let mut copy: Vec<u32> = Vec::new();
    let mut i: usize = 0;
    while i < facts.len()
        invariant
            i <= facts@.len(),
            copy@ == facts@.take(i as int),
        decreases facts@.len() - i,
    {
        copy.push(facts[i]);
        assert(facts@.take(i + 1) =~= facts@.take(i as int).push(facts@[i as int]));
        i = i + 1;
    }
    assert(facts@.take(facts@.len() as int) =~= facts@);
    canonicalise(copy)
}

/// The index of the first item of each state, in order: two items whose
/// keys are equal are one.
pub open spec fn firsts(keys: Seq<Seq<u32>>) -> Seq<int>
    decreases keys.len(),
{
    if keys.len() == 0 {
        Seq::empty()
    } else {
        let prev = firsts(keys.drop_last());
        if exists|q: int| 0 <= q < keys.len() - 1 && #[trigger] keys[q] == keys.last() {
            prev
        } else {
            prev.push(keys.len() - 1)
        }
    }
}

pub open spec fn key_views(keys: Seq<Vec<u32>>) -> Seq<Seq<u32>> {
    keys.map_values(|k: Vec<u32>| k@)
}

pub(crate) fn same_key(a: &Vec<u32>, b: &Vec<u32>) -> (r: bool)
    ensures
        r == (a@ == b@),
{
    if a.len() != b.len() {
        return false;
    }
    let mut k: usize = 0;
    while k < a.len()
        invariant
            k <= a@.len(),
            a@.len() == b@.len(),
            forall|q: int| 0 <= q < k ==> a@[q] == b@[q],
        decreases a@.len() - k,
    {
        if a[k] != b[k] {
            return false;
        }
        k = k + 1;
    }
    assert(a@ =~= b@);
    true
}

/// The first of each canonical state — the one implementation of *same
/// model*. `keys` are the items' [`state_key`]s; the result is the indices
/// of the items kept, in order.
pub fn distinct_by_state(keys: &Vec<Vec<u32>>) -> (kept: Vec<usize>)
    ensures
        kept@.map_values(|j: usize| j as int) == firsts(key_views(keys@)),
        forall|t: int| 0 <= t < kept@.len() ==> (#[trigger] kept@[t]) < keys@.len(),
{
    let ghost ks = key_views(keys@);
    let mut kept: Vec<usize> = Vec::new();
    let mut j: usize = 0;
    while j < keys.len()
        invariant
            ks == key_views(keys@),
            j <= keys@.len(),
            kept@.map_values(|q: usize| q as int) == firsts(ks.take(j as int)),
            forall|t: int| 0 <= t < kept@.len() ==> (#[trigger] kept@[t]) < j,
        decreases keys@.len() - j,
    {
        let mut seen_before = false;
        let mut q: usize = 0;
        while q < j
            invariant
                ks == key_views(keys@),
                j < keys@.len(),
                q <= j,
                seen_before == exists|p: int| 0 <= p < q && #[trigger] ks[p] == ks[j as int],
            decreases j - q,
        {
            assert(ks[q as int] == keys@[q as int]@ && ks[j as int] == keys@[j as int]@);
            if same_key(&keys[q], &keys[j]) {
                seen_before = true;
            }
            q = q + 1;
        }
        let ghost tk = ks.take(j + 1);
        assert(tk.drop_last() =~= ks.take(j as int));
        assert(tk.last() == ks[j as int]);
        assert(seen_before == exists|p: int| 0 <= p < tk.len() - 1 && #[trigger] tk[p] == tk.last()) by {
            if seen_before {
                let p = choose|p: int| 0 <= p < j && #[trigger] ks[p] == ks[j as int];
                assert(tk[p] == ks[p]);
            }
            if exists|p: int| 0 <= p < tk.len() - 1 && #[trigger] tk[p] == tk.last() {
                let p = choose|p: int| 0 <= p < tk.len() - 1 && #[trigger] tk[p] == tk.last();
                assert(tk[p] == ks[p]);
            }
        }
        if !seen_before {
            let ghost before = kept@;
            kept.push(j);
            assert(kept@.map_values(|q: usize| q as int) =~= before.map_values(|q: usize| q as int).push(j as int));
        }
        j = j + 1;
    }
    assert(ks.take(keys@.len() as int) =~= ks);
    kept
}

proof fn lemma_firsts_step(keys: Seq<Seq<u32>>)
    requires
        keys.len() > 0,
    ensures
        ({
            let rest = keys.drop_last();
            let seen = exists|q: int| 0 <= q < keys.len() - 1 && #[trigger] keys[q] == keys.last();
            &&& seen ==> firsts(keys) == firsts(rest)
            &&& !seen ==> firsts(keys) == firsts(rest).push(keys.len() - 1)
            &&& forall|q: int| 0 <= q < rest.len() ==> #[trigger] rest[q] == keys[q]
        }),
{
}

proof fn lemma_firsts_ordered(keys: Seq<Seq<u32>>)
    ensures
        forall|t: int| 0 <= t < firsts(keys).len() ==> 0 <= #[trigger] firsts(keys)[t] < keys.len(),
        forall|t: int, u: int| 0 <= t < u < firsts(keys).len() ==> #[trigger] firsts(keys)[t] < #[trigger] firsts(keys)[u],
    decreases keys.len(),
{
    if keys.len() > 0 {
        lemma_firsts_step(keys);
        lemma_firsts_ordered(keys.drop_last());
    }
}

proof fn lemma_firsts_distinct(keys: Seq<Seq<u32>>)
    ensures
        forall|t: int, u: int|
            0 <= t < u < firsts(keys).len() ==> keys[#[trigger] firsts(keys)[t]] != keys[#[trigger] firsts(keys)[u]],
    decreases keys.len(),
{
    if keys.len() > 0 {
        let rest = keys.drop_last();
        lemma_firsts_step(keys);
        lemma_firsts_distinct(rest);
        lemma_firsts_ordered(rest);
        let prev = firsts(rest);
        let f = firsts(keys);
        assert forall|t: int, u: int| 0 <= t < u < f.len() implies keys[#[trigger] f[t]] != keys[#[trigger] f[u]] by {
            assert(f[t] == prev[t]);
            assert(rest[prev[t]] == keys[prev[t]]);
            if u < prev.len() {
                assert(f[u] == prev[u]);
                assert(rest[prev[u]] == keys[prev[u]]);
            }
        }
    }
}

proof fn lemma_firsts_cover(keys: Seq<Seq<u32>>, j: int)
    requires
        0 <= j < keys.len(),
    ensures
        exists|t: int| 0 <= t < firsts(keys).len() && keys[#[trigger] firsts(keys)[t]] == keys[j],
    decreases keys.len(),
{
    let rest = keys.drop_last();
    let n = keys.len() - 1;
    lemma_firsts_step(keys);
    let prev = firsts(rest);
    let f = firsts(keys);
    let seen = exists|q: int| 0 <= q < keys.len() - 1 && #[trigger] keys[q] == keys.last();
    if j < n {
        lemma_firsts_cover(rest, j);
        let t = choose|t: int| 0 <= t < prev.len() && rest[#[trigger] prev[t]] == rest[j];
        lemma_firsts_ordered(rest);
        assert(f[t] == prev[t]);
        assert(rest[prev[t]] == keys[prev[t]]);
    } else if seen {
        let q = choose|q: int| 0 <= q < keys.len() - 1 && #[trigger] keys[q] == keys.last();
        lemma_firsts_cover(rest, q);
        let t = choose|t: int| 0 <= t < prev.len() && rest[#[trigger] prev[t]] == rest[q];
        lemma_firsts_ordered(rest);
        assert(f[t] == prev[t]);
        assert(rest[prev[t]] == keys[prev[t]]);
    } else {
        assert(f[prev.len() as int] == n);
    }
}

/// Keeping the first of each state keeps one item per state: the kept
/// items come in order, their keys are pairwise different, and every
/// item's key is a kept item's.
pub proof fn lemma_one_per_state(keys: Seq<Seq<u32>>)
    ensures
        forall|t: int| 0 <= t < firsts(keys).len() ==> 0 <= #[trigger] firsts(keys)[t] < keys.len(),
        forall|t: int, u: int| 0 <= t < u < firsts(keys).len() ==> #[trigger] firsts(keys)[t] < #[trigger] firsts(keys)[u],
        forall|t: int, u: int|
            0 <= t < u < firsts(keys).len() ==> keys[#[trigger] firsts(keys)[t]] != keys[#[trigger] firsts(keys)[u]],
        forall|j: int| 0 <= j < keys.len() ==> firsts(keys).map_values(|i: int| keys[i]).contains(#[trigger] keys[j]),
{
    lemma_firsts_ordered(keys);
    lemma_firsts_distinct(keys);
    assert forall|j: int| 0 <= j < keys.len() implies firsts(keys).map_values(|i: int| keys[i]).contains(#[trigger] keys[j]) by {
        lemma_firsts_cover(keys, j);
        let t = choose|t: int| 0 <= t < firsts(keys).len() && keys[#[trigger] firsts(keys)[t]] == keys[j];
        assert(firsts(keys).map_values(|i: int| keys[i])[t] == keys[j]);
    }
}

/// A hash of a [`state_key`], by `rustc_hash`'s `FxHasher` — for display
/// and logging only, never identity: distinct states may share one. No
/// contract: the number depends on the machine's word size.
#[verifier::external_body]
pub fn state_digest(key: &[u32]) -> u64 {
    let mut h = rustc_hash::FxHasher::default();
    std::hash::Hash::hash(key, &mut h);
    std::hash::Hasher::finish(&h)
}

} // verus!
