//! Path-condition no-good clause learning. Every dead commitment's path
//! condition becomes a learned clause; a prospective commitment that is a
//! superset of one is filtered before any fork. Subsumption keeps the store
//! minimal: a new clause is dropped if a stored one is inside it, and
//! otherwise every stored clause it is inside goes, and it comes in.
use vstd::prelude::*;

use crate::apriori::{canonicalise, is_subset, lemma_canonical_unique, strictly_sorted, subset_of, views};
use crate::events::{event_text, false_text, list, quoted_strings, true_text, with_key, Events, Line};
use crate::facts::FactTable;
use crate::text::{decimal, sort_strings, sorted_texts, texts};

verus! {

/// The store of learned clauses: each ascending, and none inside another.
pub open spec fn store_wf(store: Seq<Seq<u32>>) -> bool {
    &&& forall|c: int| 0 <= c < store.len() ==> strictly_sorted(#[trigger] store[c])
    &&& forall|a: int, b: int|
        0 <= a < store.len() && 0 <= b < store.len() && a != b ==> !subset_of(#[trigger] store[a], #[trigger] store[b])
}

/// Some stored clause is inside `s`: the filter refuses `s`.
pub open spec fn subsumed_by(store: Seq<Seq<u32>>, s: Seq<u32>) -> bool {
    exists|c: int| 0 <= c < store.len() && subset_of(#[trigger] store[c], s)
}

/// A clause's canonical form: its distinct members, ascending.
pub open spec fn canonical_of(clause: Seq<u32>) -> Seq<u32> {
    choose|c: Seq<u32>| strictly_sorted(c) && forall|x: u32| c.contains(x) <==> clause.contains(x)
}

/// The store once `c` is added: every clause `c` is inside gone, `c` last.
pub open spec fn stored_after(store: Seq<Seq<u32>>, c: Seq<u32>) -> Seq<Seq<u32>> {
    store.filter(|s: Seq<u32>| !subset_of(c, s)).push(c)
}

/// What emitting a clause did.
#[derive(Clone, Copy, PartialEq, Eq, Debug)]
pub enum NogoodOutcome {
    /// Fewer distinct members than the store keeps.
    TooSmall,
    /// A stored clause is inside it: it adds nothing.
    Subsumed,
    /// Stored, and `removed` clauses it is inside went.
    Added { removed: usize },
}

proof fn lemma_subset_trans(a: Seq<u32>, b: Seq<u32>, c: Seq<u32>)
    requires
        subset_of(a, b),
        subset_of(b, c),
    ensures
        subset_of(a, c),
{
}

/// Insert `clause` with subsumption. The store's filtering power afterwards
/// is exactly what it was plus the clause's: a set is refused iff it was
/// refused before or the clause is inside it.
pub fn emit_nogood(store: &mut Vec<Vec<u32>>, clause: &[u32], min_size: usize) -> (r: NogoodOutcome)
    requires
        store_wf(views(old(store)@)),
    ensures
        store_wf(views(final(store)@)),
        canonical_of(clause@).len() < min_size ==> r == NogoodOutcome::TooSmall && final(store)@ == old(store)@,
        canonical_of(clause@).len() >= min_size && subsumed_by(views(old(store)@), canonical_of(clause@)) ==> r
            == NogoodOutcome::Subsumed && final(store)@ == old(store)@,
        canonical_of(clause@).len() >= min_size && !subsumed_by(views(old(store)@), canonical_of(clause@)) ==> views(
            final(store)@,
        ) == stored_after(views(old(store)@), canonical_of(clause@)) && r == (NogoodOutcome::Added {
            removed: (old(store)@.len() - (views(final(store)@).len() - 1)) as usize,
        }),
        forall|s: Seq<u32>|
            #[trigger] subsumed_by(views(final(store)@), s) <==> (subsumed_by(views(old(store)@), s) || (
            canonical_of(clause@).len() >= min_size && subset_of(canonical_of(clause@), s))),
{
    let ghost old_views = views(store@);
    let mut copy: Vec<u32> = Vec::new();
    let mut i: usize = 0;
    while i < clause.len()
        invariant
            i <= clause@.len(),
            copy@ == clause@.take(i as int),
        decreases clause@.len() - i,
    {
        copy.push(clause[i]);
        assert(clause@.take(i + 1) =~= clause@.take(i as int).push(clause@[i as int]));
        i = i + 1;
    }
    assert(clause@.take(clause@.len() as int) =~= clause@);
    let canon = canonicalise(copy);
    let ghost c = canonical_of(clause@);
    proof {
        assert(strictly_sorted(canon@) && forall|x: u32| canon@.contains(x) <==> clause@.contains(x));
        lemma_canonical_unique(canon@, c);
    }
    if canon.len() < min_size {
        return NogoodOutcome::TooSmall;
    }
    let mut k: usize = 0;
    while k < store.len()
        invariant
            k <= store@.len(),
            store@ == old(store)@,
            old_views == views(store@),
            store_wf(old_views),
            strictly_sorted(canon@),
            canon@ == c,
            c == canonical_of(clause@),
            canon@.len() >= min_size,
            forall|q: int| 0 <= q < k ==> !subset_of(#[trigger] old_views[q], canon@),
        decreases store@.len() - k,
    {
        assert(old_views[k as int] == store@[k as int]@);
        if is_subset(store[k].as_slice(), canon.as_slice()) {
            proof {
                assert(subset_of(old_views[k as int], c));
                assert forall|s: Seq<u32>| #[trigger] subsumed_by(old_views, s) <==> (subsumed_by(old_views, s) || (c.len() >= min_size && subset_of(c, s))) by {
                    if subset_of(c, s) {
                        lemma_subset_trans(old_views[k as int], c, s);
                    }
                }
            }
            return NogoodOutcome::Subsumed;
        }
        k = k + 1;
    }
    let ghost p = |s: Seq<u32>| !subset_of(c, s);
    let mut kept: Vec<Vec<u32>> = Vec::new();
    let mut removed: usize = 0;
    let mut k: usize = 0;
    while k < store.len()
        invariant
            k <= store@.len(),
            store@ == old(store)@,
            old_views == views(store@),
            store_wf(old_views),
            strictly_sorted(canon@),
            canon@ == c,
            c == canonical_of(clause@),
            p == (|s: Seq<u32>| !subset_of(c, s)),
            views(kept@) == old_views.take(k as int).filter(p),
            removed + kept@.len() == k,
        decreases store@.len() - k,
    {
        assert(old_views[k as int] == store@[k as int]@);
        proof {
            assert(old_views.take(k + 1) =~= old_views.take(k as int).push(old_views[k as int]));
            old_views.take(k as int).lemma_filter_push(old_views[k as int], p);
        }
        if is_subset(canon.as_slice(), store[k].as_slice()) {
            removed = removed + 1;
        } else {
            let mut d: Vec<u32> = Vec::new();
            let mut t: usize = 0;
            while t < store[k].len()
                invariant
                    k < store@.len(),
                    t <= store@[k as int]@.len(),
                    d@ == store@[k as int]@.take(t as int),
                decreases store@[k as int]@.len() - t,
            {
                d.push(store[k][t]);
                assert(store@[k as int]@.take(t + 1) =~= store@[k as int]@.take(t as int).push(store@[k as int]@[t as int]));
                t = t + 1;
            }
            assert(store@[k as int]@.take(store@[k as int]@.len() as int) =~= store@[k as int]@);
            let ghost before = views(kept@);
            kept.push(d);
            assert(views(kept@) =~= before.push(old_views[k as int]));
        }
        k = k + 1;
    }
    assert(old_views.take(old_views.len() as int) =~= old_views);
    let ghost kv = views(kept@);
    kept.push(canon);
    let ghost nv = views(kept@);
    proof {
        assert(nv =~= kv.push(c));
        assert(nv == stored_after(old_views, c));
        // Every kept clause is an old one that `c` is not inside.
        assert forall|i: int| 0 <= i < kv.len() implies old_views.contains(#[trigger] kv[i]) && !subset_of(c, kv[i]) by {
            old_views.lemma_filter_pred(p, i);
            assert(kv.contains(kv[i]));
            old_views.lemma_filter_contains_rev(p, kv[i]);
        }
        assert(store_wf(nv)) by {
            assert forall|i: int| 0 <= i < nv.len() implies strictly_sorted(#[trigger] nv[i]) by {
                if i < kv.len() {
                    assert(old_views.contains(kv[i]));
                    let q = choose|q: int| 0 <= q < old_views.len() && old_views[q] == kv[i];
                    assert(strictly_sorted(old_views[q]));
                }
            }
            assert forall|a: int, b: int| 0 <= a < nv.len() && 0 <= b < nv.len() && a != b implies !subset_of(#[trigger] nv[a], #[trigger] nv[b]) by {
                if a < kv.len() && b < kv.len() {
                    let qa = choose|q: int| 0 <= q < old_views.len() && old_views[q] == kv[a];
                    let qb = choose|q: int| 0 <= q < old_views.len() && old_views[q] == kv[b];
                    if qa == qb {
                        // Distinct positions of the filtered store hold distinct old positions.
                        lemma_filter_positions(old_views, p, a, b);
                    }
                } else if a < kv.len() {
                    assert(nv[b] == c);
                    let qa = choose|q: int| 0 <= q < old_views.len() && old_views[q] == kv[a];
                    assert(!subset_of(old_views[qa], canon@));
                } else {
                    assert(nv[a] == c);
                }
            }
        }
        assert forall|s: Seq<u32>| #[trigger] subsumed_by(nv, s) <==> (subsumed_by(old_views, s) || (c.len() >= min_size && subset_of(c, s))) by {
            if subsumed_by(nv, s) {
                let i = choose|i: int| 0 <= i < nv.len() && subset_of(#[trigger] nv[i], s);
                if i < kv.len() {
                    let q = choose|q: int| 0 <= q < old_views.len() && old_views[q] == kv[i];
                    assert(subset_of(old_views[q], s));
                }
            }
            if subset_of(c, s) {
                assert(subset_of(nv[kv.len() as int], s));
            }
            if subsumed_by(old_views, s) {
                let q = choose|q: int| 0 <= q < old_views.len() && subset_of(#[trigger] old_views[q], s);
                if subset_of(c, old_views[q]) {
                    lemma_subset_trans(c, old_views[q], s);
                    assert(subset_of(nv[kv.len() as int], s));
                } else {
                    old_views.lemma_filter_contains(p, q);
                    let i = choose|i: int| 0 <= i < kv.len() && kv[i] == old_views[q];
                    assert(subset_of(nv[i], s));
                }
            }
        }
    }
    *store = kept;
    NogoodOutcome::Added { removed }
}

/// Two positions of a filtered sequence of distinct elements hold
/// different elements.
proof fn lemma_filter_positions(s: Seq<Seq<u32>>, p: spec_fn(Seq<u32>) -> bool, a: int, b: int)
    requires
        0 <= a < s.filter(p).len(),
        0 <= b < s.filter(p).len(),
        a != b,
        forall|i: int, j: int| 0 <= i < s.len() && 0 <= j < s.len() && i != j ==> s[i] != s[j],
    ensures
        s.filter(p)[a] != s.filter(p)[b],
    decreases s.len(),
{
    reveal(Seq::filter);
    if s.len() > 0 {
        let rest = s.drop_last();
        let fr = rest.filter(p);
        assert forall|i: int, j: int| 0 <= i < rest.len() && 0 <= j < rest.len() && i != j implies rest[i] != rest[j] by {
            assert(rest[i] == s[i] && rest[j] == s[j]);
        }
        if p(s.last()) {
            assert(s.filter(p) == fr.push(s.last()));
            if a < fr.len() && b < fr.len() {
                lemma_filter_positions(rest, p, a, b);
            } else {
                let i = if a < fr.len() { a } else { b };
                rest.lemma_filter_pred(p, i);
                assert(fr.contains(fr[i]));
                rest.lemma_filter_contains_rev(p, fr[i]);
                let q = choose|q: int| 0 <= q < rest.len() && rest[q] == fr[i];
                assert(s[q] != s[s.len() - 1]);
            }
        } else {
            assert(s.filter(p) == fr);
            lemma_filter_positions(rest, p, a, b);
        }
    }
}


/// A clause as sorted s-expressions: it is a set, so any order but a sorted
/// one would leak the store's into the event stream.
pub fn clause_repr(tbl: &FactTable, clause: &[u32]) -> (r: Vec<String>)
    requires
        tbl.wf(),
        forall|i: int| 0 <= i < clause@.len() ==> (#[trigger] clause@[i]) < tbl.rows@.len(),
    ensures
        texts(r@) == sorted_texts(clause@.map_values(|f: u32| tbl.fact_text(f as int))),
{
    let rendered = crate::events::sexpr_facts(tbl, clause);
    sort_strings(&rendered)
}

/// A `nogood` event's fields, for a clause rendered as `clause`.
pub open spec fn nogood_fields(clause: Seq<Seq<char>>, outcome: NogoodOutcome) -> Seq<char> {
    let quoted = list(clause.map_values(|s: Seq<char>| crate::events::json_str(s)));
    let l1 = with_key(seq!['{'], "clause"@) + quoted;
    match outcome {
        NogoodOutcome::Added { removed } => {
            let l2 = with_key(l1, "emitted"@) + true_text();
            let l3 = with_key(l2, "subsumed"@) + false_text();
            with_key(l3, "removed"@) + decimal((removed as i64) as int)
        },
        _ => {
            let l2 = with_key(l1, "emitted"@) + false_text();
            with_key(l2, "subsumed"@) + true_text()
        },
    }
}

/// Narrate an emit: a `nogood` event for a clause that was stored or
/// subsumed, when recording; nothing for one too small to keep.
pub fn narrate_nogood(events: &mut Events, tbl: &FactTable, clause: &[u32], outcome: NogoodOutcome) -> (line: Option<String>)
    requires
        old(events).count() < u64::MAX,
        tbl.wf(),
        forall|i: int| 0 <= i < clause@.len() ==> (#[trigger] clause@[i]) < tbl.rows@.len(),
    ensures
        final(events).is_on() == old(events).is_on(),
        final(events).level_of() == old(events).level_of(),
        old(events).is_on() && outcome != NogoodOutcome::TooSmall ==> final(events).count() == old(events).count() + 1
            && line is Some && line->0@ == event_text(
            "nogood"@,
            old(events).count(),
            nogood_fields(sorted_texts(canonical_of(clause@).map_values(|f: u32| tbl.fact_text(f as int))), outcome),
        ),
        !(old(events).is_on() && outcome != NogoodOutcome::TooSmall) ==> final(events).count() == old(events).count()
            && line is None,
{
    if !events.on() {
        return None;
    }
    let removed = match outcome {
        NogoodOutcome::TooSmall => {
            return None;
        },
        NogoodOutcome::Subsumed => None,
        NogoodOutcome::Added { removed } => Some(removed),
    };
    let mut copy: Vec<u32> = Vec::new();
    let mut i: usize = 0;
    while i < clause.len()
        invariant
            i <= clause@.len(),
            copy@ == clause@.take(i as int),
        decreases clause@.len() - i,
    {
        copy.push(clause[i]);
        assert(clause@.take(i + 1) =~= clause@.take(i as int).push(clause@[i as int]));
        i = i + 1;
    }
    assert(clause@.take(clause@.len() as int) =~= clause@);
    let canon = canonicalise(copy);
    proof {
        lemma_canonical_unique(canon@, canonical_of(clause@));
        assert forall|i: int| 0 <= i < canon@.len() implies (#[trigger] canon@[i]) < tbl.rows@.len() by {
            assert(canon@.contains(canon@[i]));
            let q = choose|q: int| 0 <= q < clause@.len() && clause@[q] == canon@[i];
        }
    }
    let rendered = clause_repr(tbl, canon.as_slice());
    let ghost shown = texts(rendered@);
    assert(quoted_strings(rendered@) =~= shown.map_values(|s: Seq<char>| crate::events::json_str(s)));
    let mut l = Line::new();
    l.owned_strs("clause", rendered);
    match removed {
        Some(n) => {
            l.bool("emitted", true);
            l.bool("subsumed", false);
            l.num("removed", n as i64);
        },
        None => {
            l.bool("emitted", false);
            l.bool("subsumed", true);
        },
    }
    assert(canon@.map_values(|f: u32| tbl.fact_text(f as int)) == canonical_of(clause@).map_values(|f: u32| tbl.fact_text(f as int)));
    assert(l@ == nogood_fields(shown, outcome));
    events.emit("nogood", &l)
}

} // verus!
