//! The lattice's arithmetic — layer *k+1* candidates from the layer-*k*
//! frontier.
//!
//! The textbook Apriori prefix-join, filtered against the alive set and the
//! learned no-good clauses. Pure set arithmetic: no KB inspection and no
//! saturation.
//!
//! A hypothesis is handled here by its **content rank**: the position of
//! its `(relation, args)` in the content order the whole traversal is sorted
//! by. Two hypotheses with the same content are the same fact, so the rank is
//! also the identity, and every comparison below is a comparison of ranks.
use vstd::prelude::*;

use rustc_hash::FxHashSet;

use crate::fxset::contains_id;
use crate::hypgen::ScoreError;
use crate::text::{push_repr, py_repr, str_eq};

verus! {

/// A canonically-ordered, deduped set of hypotheses — the lattice's node
/// identity.
pub type CanonicalSetId = Vec<u32>;

/// Ascending without repeats: the canonical form of a set.
pub open spec fn strictly_sorted(s: Seq<u32>) -> bool {
    forall|i: int, j: int| 0 <= i < j < s.len() ==> s[i] < s[j]
}

/// `a` before `b` in `tuple` order: element-wise, then a proper prefix
/// first. The comparison from position `i` on.
pub open spec fn lex_less_from(a: Seq<u32>, b: Seq<u32>, i: nat) -> bool
    decreases a.len() - i,
{
    if i >= a.len() {
        i < b.len()
    } else if i >= b.len() {
        false
    } else if a[i as int] != b[i as int] {
        a[i as int] < b[i as int]
    } else {
        lex_less_from(a, b, i + 1)
    }
}

pub open spec fn lex_less(a: Seq<u32>, b: Seq<u32>) -> bool {
    lex_less_from(a, b, 0)
}

/// Where `x` goes in `t`, scanning from `k`: before the first element it
/// precedes, so equal elements keep their arrival order.
pub open spec fn insert_pos(x: Seq<u32>, t: Seq<Seq<u32>>, k: nat) -> nat
    decreases t.len() - k,
{
    if k >= t.len() {
        t.len()
    } else if lex_less(x, t[k as int]) {
        k
    } else {
        insert_pos(x, t, k + 1)
    }
}

/// The first `n` sets of `s`, insertion-sorted into `tuple` order.
pub open spec fn sorted_prefix(s: Seq<Seq<u32>>, n: nat) -> Seq<Seq<u32>>
    decreases n,
{
    if n == 0 {
        Seq::empty()
    } else {
        let t = sorted_prefix(s, (n - 1) as nat);
        t.insert(insert_pos(s[n - 1], t, 0) as int, s[n - 1])
    }
}

/// `s`, sorted into `tuple` order.
pub open spec fn sort_lex(s: Seq<Seq<u32>>) -> Seq<Seq<u32>> {
    sorted_prefix(s, s.len())
}

/// The join of `sp[i]` with `sp[j..]`: stop at the first set whose prefix
/// differs, and emit `prefix + (s_last, t_last)` where `s_last < t_last`.
pub open spec fn join_pairs(sp: Seq<Seq<u32>>, i: nat, j: nat) -> Seq<Seq<u32>>
    decreases sp.len() - j,
{
    if j >= sp.len() {
        Seq::empty()
    } else {
        let s = sp[i as int];
        let t = sp[j as int];
        if t.len() == 0 || t.drop_last() != s.drop_last() {
            Seq::empty()
        } else {
            let here = if s.last() < t.last() {
                seq![s.push(t.last())]
            } else {
                Seq::empty()
            };
            here + join_pairs(sp, i, j + 1)
        }
    }
}

/// Every join of the sorted layer from position `i` on.
pub open spec fn join_from(sp: Seq<Seq<u32>>, i: nat) -> Seq<Seq<u32>>
    decreases sp.len() - i,
{
    if i >= sp.len() {
        Seq::empty()
    } else {
        let mine = if sp[i as int].len() == 0 {
            Seq::empty()
        } else {
            join_pairs(sp, i, i + 1)
        };
        mine + join_from(sp, i + 1)
    }
}

/// Apriori-gen over a layer: sort it, then join.
pub open spec fn prefix_join(prev: Seq<Seq<u32>>) -> Seq<Seq<u32>> {
    join_from(sort_lex(prev), 0)
}

/// `clause ⊆ set`.
pub open spec fn subset_of(clause: Seq<u32>, set: Seq<u32>) -> bool {
    forall|x: u32| clause.contains(x) ==> set.contains(x)
}

/// Should `candidate` be explored: every element still alive, and no
/// learned clause inside it.
pub open spec fn keeps(candidate: Seq<u32>, alive: Set<u32>, nogoods: Seq<Seq<u32>>) -> bool {
    &&& forall|x: u32| candidate.contains(x) ==> alive.contains(x)
    &&& forall|c: int| 0 <= c < nogoods.len() ==> !subset_of(#[trigger] nogoods[c], candidate)
}

/// The candidates of `cands` that survive the filter, in order.
pub open spec fn kept(cands: Seq<Seq<u32>>, alive: Set<u32>, nogoods: Seq<Seq<u32>>) -> Seq<Seq<u32>>
    decreases cands.len(),
{
    if cands.len() == 0 {
        Seq::empty()
    } else {
        let rest = kept(cands.drop_last(), alive, nogoods);
        if keeps(cands.last(), alive, nogoods) {
            rest.push(cands.last())
        } else {
            rest
        }
    }
}

/// The sets a vector of sets holds.
pub open spec fn views(v: Seq<Vec<u32>>) -> Seq<Seq<u32>> {
    Seq::new(v.len(), |i: int| v[i]@)
}

/// The lattice order a run selects.
#[derive(Clone, Copy, PartialEq, Eq, Debug)]
pub enum OrderMode {
    /// Canonical-tuple order.
    Lex,
    /// Summed hypothesis score, descending, tie-broken by the canonical tuple.
    ScoreSum,
}

// ── Lemmas ───────────────────────────────────────────────────────────

/// Two canonical sets with the same members are the same sequence: the
/// canonical form of a set is unique.
pub proof fn lemma_canonical_unique(a: Seq<u32>, b: Seq<u32>)
    requires
        strictly_sorted(a),
        strictly_sorted(b),
        forall|x: u32| a.contains(x) <==> b.contains(x),
    ensures
        a == b,
    decreases a.len(),
{
    if a.len() == 0 {
        if b.len() > 0 {
            assert(b.contains(b[0]));
        }
        assert(a =~= b);
    } else {
        assert(a.contains(a[0]));
        assert(b.len() > 0);
        assert(b.contains(b[0]));
        let ia = choose|k: int| 0 <= k < a.len() && a[k] == b[0];
        let ib = choose|k: int| 0 <= k < b.len() && b[k] == a[0];
        assert(a[0] == b[0]) by {
            if a[0] < b[0] {
                assert(b[ib] == a[0]);
                if ib > 0 {
                    assert(b[0] < b[ib]);
                }
            } else if b[0] < a[0] {
                assert(a[ia] == b[0]);
                if ia > 0 {
                    assert(a[0] < a[ia]);
                }
            }
        }
        let a1 = a.drop_first();
        let b1 = b.drop_first();
        assert forall|x: u32| a1.contains(x) <==> b1.contains(x) by {
            if a1.contains(x) {
                let k = choose|k: int| 0 <= k < a1.len() && a1[k] == x;
                assert(a[k + 1] == x);
                assert(a.contains(x));
                assert(a[0] < a[k + 1]);
                let m = choose|m: int| 0 <= m < b.len() && b[m] == x;
                assert(m != 0);
                assert(b1[m - 1] == x);
            }
            if b1.contains(x) {
                let k = choose|k: int| 0 <= k < b1.len() && b1[k] == x;
                assert(b[k + 1] == x);
                assert(b.contains(x));
                assert(b[0] < b[k + 1]);
                let m = choose|m: int| 0 <= m < a.len() && a[m] == x;
                assert(m != 0);
                assert(a1[m - 1] == x);
            }
        }
        lemma_canonical_unique(a1, b1);
        assert(a =~= seq![a[0]] + a1);
        assert(b =~= seq![b[0]] + b1);
    }
}

proof fn lemma_sorted_prefix_len(s: Seq<Seq<u32>>, n: nat)
    requires
        n <= s.len(),
    ensures
        sorted_prefix(s, n).len() == n,
        sorted_prefix(s, n).to_multiset() == s.take(n as int).to_multiset(),
    decreases n,
{
    broadcast use vstd::seq_lib::group_to_multiset_ensures;
    broadcast use vstd::multiset::group_multiset_properties;

    if n > 0 {
        lemma_sorted_prefix_len(s, (n - 1) as nat);
        let t = sorted_prefix(s, (n - 1) as nat);
        lemma_insert_pos_bound(s[n - 1], t, 0);
        assert(s.take(n as int) =~= s.take(n - 1).push(s[n - 1]));
        assert(s.take(n as int).to_multiset() =~= s.take(n - 1).to_multiset().insert(s[n - 1]));
    } else {
        assert(s.take(0) =~= Seq::<Seq<u32>>::empty());
    }
}

proof fn lemma_insert_pos_bound(x: Seq<u32>, t: Seq<Seq<u32>>, k: nat)
    requires
        k <= t.len(),
    ensures
        k <= insert_pos(x, t, k) <= t.len(),
    decreases t.len() - k,
{
    if k < t.len() && !lex_less(x, t[k as int]) {
        lemma_insert_pos_bound(x, t, k + 1);
    }
}

/// Sorting a layer keeps every set, each as many times.
pub proof fn lemma_sort_is_permutation(s: Seq<Seq<u32>>)
    ensures
        sort_lex(s).to_multiset() == s.to_multiset(),
        sort_lex(s).len() == s.len(),
{
    lemma_sorted_prefix_len(s, s.len());
    assert(s.take(s.len() as int) =~= s);
}

proof fn lemma_push_sorted(s: Seq<u32>, x: u32)
    requires
        strictly_sorted(s),
        s.len() > 0,
        s.last() < x,
    ensures
        strictly_sorted(s.push(x)),
{
    assert forall|i: int, j: int| 0 <= i < j < s.push(x).len() implies s.push(x)[i] < s.push(
        x,
    )[j] by {
        if j == s.len() {
            if i < s.len() - 1 {
                assert(s[i] < s[s.len() - 1]);
            }
        }
    }
}

proof fn lemma_join_pairs_canonical(sp: Seq<Seq<u32>>, i: nat, j: nat, k: nat)
    requires
        i < sp.len(),
        k >= 1,
        forall|m: int| 0 <= m < sp.len() ==> strictly_sorted(#[trigger] sp[m]) && sp[m].len() == k,
    ensures
        forall|m: int|
            0 <= m < join_pairs(sp, i, j).len() ==> strictly_sorted(#[trigger] join_pairs(sp, i, j)[m])
                && join_pairs(sp, i, j)[m].len() == k + 1,
    decreases sp.len() - j,
{
    if j < sp.len() {
        let s = sp[i as int];
        let t = sp[j as int];
        if !(t.len() == 0 || t.drop_last() != s.drop_last()) {
            lemma_join_pairs_canonical(sp, i, j + 1, k);
            if s.last() < t.last() {
                lemma_push_sorted(s, t.last());
            }
            let here = if s.last() < t.last() {
                seq![s.push(t.last())]
            } else {
                Seq::<Seq<u32>>::empty()
            };
            let rest = join_pairs(sp, i, j + 1);
            assert forall|m: int| 0 <= m < (here + rest).len() implies strictly_sorted(
                #[trigger] (here + rest)[m],
            ) && (here + rest)[m].len() == k + 1 by {
                if m >= here.len() {
                    assert((here + rest)[m] == rest[m - here.len()]);
                }
            }
        }
    }
}

proof fn lemma_join_from_canonical(sp: Seq<Seq<u32>>, i: nat, k: nat)
    requires
        k >= 1,
        forall|m: int| 0 <= m < sp.len() ==> strictly_sorted(#[trigger] sp[m]) && sp[m].len() == k,
    ensures
        forall|m: int|
            0 <= m < join_from(sp, i).len() ==> strictly_sorted(#[trigger] join_from(sp, i)[m])
                && join_from(sp, i)[m].len() == k + 1,
    decreases sp.len() - i,
{
    if i < sp.len() {
        lemma_join_from_canonical(sp, i + 1, k);
        lemma_join_pairs_canonical(sp, i, i + 1, k);
        let mine = if sp[i as int].len() == 0 {
            Seq::<Seq<u32>>::empty()
        } else {
            join_pairs(sp, i, i + 1)
        };
        let rest = join_from(sp, i + 1);
        assert forall|m: int| 0 <= m < (mine + rest).len() implies strictly_sorted(
            #[trigger] (mine + rest)[m],
        ) && (mine + rest)[m].len() == k + 1 by {
            if m < mine.len() {
                assert((mine + rest)[m] == mine[m]);
            } else {
                assert((mine + rest)[m] == rest[m - mine.len()]);
            }
        }
    }
}

/// The prefix join of a layer of canonical `k`-sets yields canonical
/// `k+1`-sets only.
pub proof fn lemma_prefix_join_canonical(prev: Seq<Seq<u32>>, k: nat)
    requires
        k >= 1,
        forall|m: int| 0 <= m < prev.len() ==> strictly_sorted(#[trigger] prev[m]) && prev[m].len() == k,
    ensures
        forall|m: int|
            0 <= m < prefix_join(prev).len() ==> strictly_sorted(#[trigger] prefix_join(prev)[m])
                && prefix_join(prev)[m].len() == k + 1,
{
    let sp = sort_lex(prev);
    lemma_sort_is_permutation(prev);
    assert forall|m: int| 0 <= m < sp.len() implies strictly_sorted(#[trigger] sp[m]) && sp[m].len()
        == k by {
        broadcast use vstd::seq_lib::group_to_multiset_ensures;
        assert(sp.to_multiset().count(sp[m]) > 0);
        assert(prev.to_multiset().count(sp[m]) > 0);
        assert(prev.contains(sp[m]));
        let w = choose|w: int| 0 <= w < prev.len() && prev[w] == sp[m];
        assert(strictly_sorted(prev[w]));
    }
    lemma_join_from_canonical(sp, 0, k);
}

proof fn lemma_kept_step(cands: Seq<Seq<u32>>, i: int, alive: Set<u32>, nogoods: Seq<Seq<u32>>)
    requires
        0 <= i < cands.len(),
    ensures
        kept(cands.take(i + 1), alive, nogoods) == (if keeps(cands[i], alive, nogoods) {
            kept(cands.take(i), alive, nogoods).push(cands[i])
        } else {
            kept(cands.take(i), alive, nogoods)
        }),
{
    assert(cands.take(i + 1).drop_last() =~= cands.take(i));
}

proof fn lemma_lex_trans(a: Seq<u32>, b: Seq<u32>, c: Seq<u32>, i: nat)
    requires
        lex_less_from(a, b, i),
        lex_less_from(b, c, i),
    ensures
        lex_less_from(a, c, i),
    decreases a.len() - i,
{
    if i < a.len() && i < b.len() && i < c.len() && a[i as int] == b[i as int] && b[i as int] == c[i as int] {
        lemma_lex_trans(a, b, c, i + 1);
    }
}

/// `a` and `b` agree before `p` and `a[p] < b[p]`: `a` comes first.
proof fn lemma_lex_at(a: Seq<u32>, b: Seq<u32>, p: nat, i: nat)
    requires
        i <= p,
        p < a.len(),
        p < b.len(),
        a[p as int] < b[p as int],
        forall|x: int| i <= x < p ==> a[x] == b[x],
    ensures
        lex_less_from(a, b, i),
    decreases p - i,
{
    if i < p {
        lemma_lex_at(a, b, p, i + 1);
    }
}

/// The layer is in `tuple` order: no set comes before an earlier one.
pub open spec fn lex_sorted(t: Seq<Seq<u32>>) -> bool {
    forall|i: int, j: int| 0 <= i < j < t.len() ==> !lex_less(#[trigger] t[j], #[trigger] t[i])
}

proof fn lemma_insert_pos_spot(x: Seq<u32>, t: Seq<Seq<u32>>, k: nat)
    requires
        k <= t.len(),
    ensures
        forall|m: int| k <= m < insert_pos(x, t, k) ==> !lex_less(x, #[trigger] t[m]),
        insert_pos(x, t, k) < t.len() ==> lex_less(x, t[insert_pos(x, t, k) as int]),
    decreases t.len() - k,
{
    if k < t.len() && !lex_less(x, t[k as int]) {
        lemma_insert_pos_spot(x, t, k + 1);
    }
}

proof fn lemma_sorted_prefix_sorted(s: Seq<Seq<u32>>, n: nat)
    requires
        n <= s.len(),
    ensures
        lex_sorted(sorted_prefix(s, n)),
    decreases n,
{
    if n > 0 {
        lemma_sorted_prefix_sorted(s, (n - 1) as nat);
        let t = sorted_prefix(s, (n - 1) as nat);
        let x = s[n - 1];
        lemma_insert_pos_bound(x, t, 0);
        lemma_insert_pos_spot(x, t, 0);
        let pos = insert_pos(x, t, 0) as int;
        let u = t.insert(pos, x);
        assert forall|i: int, j: int| 0 <= i < j < u.len() implies !lex_less(#[trigger] u[j], #[trigger] u[i]) by {
            if j < pos {
                assert(u[i] == t[i] && u[j] == t[j]);
            } else if j == pos {
                assert(u[i] == t[i] && u[j] == x);
            } else if i < pos {
                assert(u[i] == t[i] && u[j] == t[j - 1]);
            } else if i == pos {
                assert(u[i] == x && u[j] == t[j - 1]);
                if lex_less(t[j - 1], x) {
                    if j - 1 > pos {
                        assert(!lex_less(t[j - 1], t[pos]));
                    }
                    lemma_lex_trans(t[j - 1], x, t[pos], 0);
                    assert(lex_less(t[j - 1], t[pos]));
                    if j - 1 == pos {
                        lemma_lex_irrefl(t[pos], 0);
                    }
                }
            } else {
                assert(u[i] == t[i - 1] && u[j] == t[j - 1]);
            }
        }
    }
}

proof fn lemma_lex_irrefl(a: Seq<u32>, i: nat)
    ensures
        !lex_less_from(a, a, i),
    decreases a.len() - i,
{
    if i < a.len() {
        lemma_lex_irrefl(a, i + 1);
    }
}

/// `x` is the join of `s` and `t`: they agree on all but their last
/// element, `s`'s last is the smaller, and `x` is `s` with `t`'s last
/// appended.
pub open spec fn joined(s: Seq<u32>, t: Seq<u32>, x: Seq<u32>) -> bool {
    &&& s.len() > 0
    &&& t.len() > 0
    &&& s.drop_last() == t.drop_last()
    &&& s.last() < t.last()
    &&& x == s.push(t.last())
}

/// `x` is the join of two sets of `prev`.
pub open spec fn from_pair(prev: Seq<Seq<u32>>, x: Seq<u32>) -> bool {
    exists|a: int, b: int| 0 <= a < prev.len() && 0 <= b < prev.len() && #[trigger] joined(prev[a], prev[b], x)
}

proof fn lemma_join_pairs_sound(sp: Seq<Seq<u32>>, prev: Seq<Seq<u32>>, i: nat, j: nat)
    requires
        i < sp.len(),
        sp[i as int].len() > 0,
        forall|m: int| 0 <= m < sp.len() ==> prev.contains(#[trigger] sp[m]),
    ensures
        forall|m: int| 0 <= m < join_pairs(sp, i, j).len() ==> from_pair(prev, #[trigger] join_pairs(sp, i, j)[m]),
    decreases sp.len() - j,
{
    if j < sp.len() {
        let s = sp[i as int];
        let t = sp[j as int];
        if !(t.len() == 0 || t.drop_last() != s.drop_last()) {
            lemma_join_pairs_sound(sp, prev, i, j + 1);
            let here = if s.last() < t.last() {
                seq![s.push(t.last())]
            } else {
                Seq::<Seq<u32>>::empty()
            };
            let rest = join_pairs(sp, i, j + 1);
            assert forall|m: int| 0 <= m < (here + rest).len() implies from_pair(prev, #[trigger] (here + rest)[m]) by {
                if m < here.len() {
                    assert(prev.contains(s));
                    assert(prev.contains(t));
                    let a = choose|a: int| 0 <= a < prev.len() && prev[a] == s;
                    let b = choose|b: int| 0 <= b < prev.len() && prev[b] == t;
                    assert((here + rest)[m] == s.push(t.last()));
                    assert(joined(prev[a], prev[b], (here + rest)[m]));
                } else {
                    assert((here + rest)[m] == rest[m - here.len()]);
                }
            }
        }
    }
}

proof fn lemma_join_from_sound(sp: Seq<Seq<u32>>, prev: Seq<Seq<u32>>, i: nat)
    requires
        forall|m: int| 0 <= m < sp.len() ==> prev.contains(#[trigger] sp[m]),
    ensures
        forall|m: int| 0 <= m < join_from(sp, i).len() ==> from_pair(prev, #[trigger] join_from(sp, i)[m]),
    decreases sp.len() - i,
{
    if i < sp.len() {
        lemma_join_from_sound(sp, prev, i + 1);
        if sp[i as int].len() > 0 {
            lemma_join_pairs_sound(sp, prev, i, i + 1);
        }
        let mine = if sp[i as int].len() == 0 {
            Seq::<Seq<u32>>::empty()
        } else {
            join_pairs(sp, i, i + 1)
        };
        let rest = join_from(sp, i + 1);
        assert forall|m: int| 0 <= m < (mine + rest).len() implies from_pair(prev, #[trigger] (mine + rest)[m]) by {
            if m < mine.len() {
                assert((mine + rest)[m] == mine[m]);
            } else {
                assert((mine + rest)[m] == rest[m - mine.len()]);
            }
        }
    }
}

/// Every set the prefix join yields is the join of two sets of the layer
/// that agree on all but their last element, the first's last the smaller.
pub proof fn lemma_prefix_join_sound(prev: Seq<Seq<u32>>)
    ensures
        forall|m: int| 0 <= m < prefix_join(prev).len() ==> from_pair(prev, #[trigger] prefix_join(prev)[m]),
{
    let sp = sort_lex(prev);
    lemma_sort_is_permutation(prev);
    assert forall|m: int| 0 <= m < sp.len() implies prev.contains(#[trigger] sp[m]) by {
        broadcast use vstd::seq_lib::group_to_multiset_ensures;
        assert(sp.to_multiset().count(sp[m]) > 0);
        assert(prev.to_multiset().count(sp[m]) > 0);
    }
    lemma_join_from_sound(sp, prev, 0);
}

/// Between two sets of length `k` that agree on all but their last
/// element, a set of that length in `tuple` order agrees with them there
/// too.
proof fn lemma_between_same_prefix(a: Seq<u32>, s: Seq<u32>, t: Seq<u32>, k: nat, i: nat)
    requires
        k >= 1,
        a.len() == k,
        s.len() == k,
        t.len() == k,
        s.drop_last() == t.drop_last(),
        !lex_less(a, s),
        !lex_less(t, a),
        i <= k - 1,
        forall|x: int| 0 <= x < i ==> a[x] == s[x],
    ensures
        a.drop_last() == s.drop_last(),
    decreases k - 1 - i,
{
    if i < k - 1 {
        assert(s[i as int] == s.drop_last()[i as int]);
        assert(t[i as int] == t.drop_last()[i as int]);
        if a[i as int] < s[i as int] {
            lemma_lex_at(a, s, i, 0);
        } else if a[i as int] > s[i as int] {
            assert forall|x: int| 0 <= x < i implies t[x] == a[x] by {
                assert(s[x] == s.drop_last()[x]);
                assert(t[x] == t.drop_last()[x]);
            }
            lemma_lex_at(t, a, i, 0);
        }
        lemma_between_same_prefix(a, s, t, k, i + 1);
    } else {
        assert(a.drop_last() =~= s.drop_last());
    }
}

proof fn lemma_join_pairs_reaches(sp: Seq<Seq<u32>>, i: nat, j: nat, jt: nat)
    requires
        i < j <= jt < sp.len(),
        sp[i as int].len() > 0,
        sp[i as int].last() < sp[jt as int].last(),
        forall|m: int| j <= m <= jt ==> (#[trigger] sp[m]).len() > 0 && sp[m].drop_last() == sp[i as int].drop_last(),
    ensures
        join_pairs(sp, i, j).contains(sp[i as int].push(sp[jt as int].last())),
    decreases jt - j,
{
    let s = sp[i as int];
    let t = sp[j as int];
    assert(t.len() > 0 && t.drop_last() == s.drop_last());
    let here = if s.last() < t.last() {
        seq![s.push(t.last())]
    } else {
        Seq::<Seq<u32>>::empty()
    };
    let rest = join_pairs(sp, i, j + 1);
    assert(join_pairs(sp, i, j) == here + rest);
    if j == jt {
        assert((here + rest)[0] == s.push(sp[jt as int].last()));
    } else {
        lemma_join_pairs_reaches(sp, i, j + 1, jt);
        let w = choose|w: int| 0 <= w < rest.len() && rest[w] == s.push(sp[jt as int].last());
        assert((here + rest)[here.len() + w] == rest[w]);
    }
}

proof fn lemma_join_from_reaches(sp: Seq<Seq<u32>>, i0: nat, i: nat, x: Seq<u32>)
    requires
        i0 <= i < sp.len(),
        sp[i as int].len() > 0,
        join_pairs(sp, i, i + 1).contains(x),
    ensures
        join_from(sp, i0).contains(x),
    decreases i - i0,
{
    let mine = if sp[i0 as int].len() == 0 {
        Seq::<Seq<u32>>::empty()
    } else {
        join_pairs(sp, i0, i0 + 1)
    };
    let rest = join_from(sp, i0 + 1);
    assert(join_from(sp, i0) == mine + rest);
    if i0 == i {
        let w = choose|w: int| 0 <= w < mine.len() && mine[w] == x;
        assert((mine + rest)[w] == mine[w]);
    } else {
        lemma_join_from_reaches(sp, i0 + 1, i, x);
        let w = choose|w: int| 0 <= w < rest.len() && rest[w] == x;
        assert((mine + rest)[mine.len() + w] == rest[w]);
    }
}

/// Every pair of a layer of `k`-sets that agree on all but their last
/// element, the first's last the smaller, is joined: the prefix join holds
/// the first set with the second's last element appended.
pub proof fn lemma_prefix_join_complete(prev: Seq<Seq<u32>>, k: nat, s: Seq<u32>, t: Seq<u32>)
    requires
        k >= 1,
        forall|m: int| 0 <= m < prev.len() ==> (#[trigger] prev[m]).len() == k,
        prev.contains(s),
        prev.contains(t),
        s.drop_last() == t.drop_last(),
        s.last() < t.last(),
    ensures
        prefix_join(prev).contains(s.push(t.last())),
{
    let sp = sort_lex(prev);
    lemma_sort_is_permutation(prev);
    lemma_sorted_prefix_sorted(prev, prev.len());
    broadcast use vstd::seq_lib::group_to_multiset_ensures;

    assert forall|m: int| 0 <= m < sp.len() implies (#[trigger] sp[m]).len() == k by {
        assert(sp.to_multiset().count(sp[m]) > 0);
        assert(prev.to_multiset().count(sp[m]) > 0);
        let w = choose|w: int| 0 <= w < prev.len() && prev[w] == sp[m];
    }
    assert(prev.to_multiset().count(s) > 0);
    assert(sp.to_multiset().count(s) > 0);
    assert(prev.to_multiset().count(t) > 0);
    assert(sp.to_multiset().count(t) > 0);
    let is = choose|w: int| 0 <= w < sp.len() && sp[w] == s;
    let it = choose|w: int| 0 <= w < sp.len() && sp[w] == t;
    assert(s.len() == k && t.len() == k);
    assert(s[k - 1] < t[k - 1]);
    assert forall|x: int| 0 <= x < k - 1 implies s[x] == t[x] by {
        assert(s[x] == s.drop_last()[x]);
        assert(t[x] == t.drop_last()[x]);
    }
    lemma_lex_at(s, t, (k - 1) as nat, 0);
    if it < is {
        assert(!lex_less(sp[is], sp[it]));
    }
    if it == is {
        lemma_lex_irrefl(s, 0);
    }
    assert(is < it);
    assert forall|m: int| is + 1 <= m <= it implies (#[trigger] sp[m]).len() > 0 && sp[m].drop_last() == s.drop_last() by {
        if m < it {
            assert(!lex_less(sp[m], sp[is]));
            assert(!lex_less(sp[it], sp[m]));
            lemma_between_same_prefix(sp[m], s, t, k, 0);
        }
    }
    lemma_join_pairs_reaches(sp, is as nat, (is + 1) as nat, it as nat);
    lemma_join_from_reaches(sp, 0, is as nat, s.push(t.last()));
}

proof fn lemma_lex_total(a: Seq<u32>, b: Seq<u32>, i: nat)
    requires
        a.len() == b.len(),
        i <= a.len(),
        exists|x: int| i <= x < a.len() && a[x] != b[x],
    ensures
        lex_less_from(a, b, i) || lex_less_from(b, a, i),
    decreases a.len() - i,
{
    if a[i as int] == b[i as int] {
        let x = choose|x: int| i <= x < a.len() && a[x] != b[x];
        assert(i + 1 <= x);
        lemma_lex_total(a, b, i + 1);
    }
}

proof fn lemma_lex_push(a: Seq<u32>, b: Seq<u32>, x: u32, y: u32, i: nat)
    requires
        a.len() == b.len(),
        lex_less_from(a, b, i),
    ensures
        lex_less_from(a.push(x), b.push(y), i),
    decreases a.len() - i,
{
    if i < a.len() && a[i as int] == b[i as int] {
        lemma_lex_push(a, b, x, y, i + 1);
    }
}

/// A strictly ascending layer of same-length sets.
spec fn ascending(sp: Seq<Seq<u32>>, k: nat) -> bool {
    &&& forall|m: int| 0 <= m < sp.len() ==> (#[trigger] sp[m]).len() == k
    &&& forall|i: int, j: int| 0 <= i < j < sp.len() ==> lex_less(#[trigger] sp[i], #[trigger] sp[j])
}

/// Strictly ascending in `tuple` order.
pub open spec fn lex_ascending(t: Seq<Seq<u32>>) -> bool {
    forall|i: int, j: int| 0 <= i < j < t.len() ==> lex_less(#[trigger] t[i], #[trigger] t[j])
}

proof fn lemma_join_pairs_ordered(sp: Seq<Seq<u32>>, k: nat, i: nat, j: nat)
    requires
        k >= 1,
        ascending(sp, k),
        i < j,
        i < sp.len(),
    ensures
        lex_ascending(join_pairs(sp, i, j)),
        forall|w: int| 0 <= w < join_pairs(sp, i, j).len() ==> exists|m: int|
            j <= m < sp.len() && sp[m].drop_last() == sp[i as int].drop_last() && #[trigger] join_pairs(sp, i, j)[w]
                == sp[i as int].push(sp[m].last()),
    decreases sp.len() - j,
{
    if j < sp.len() {
        let s = sp[i as int];
        let t = sp[j as int];
        if !(t.len() == 0 || t.drop_last() != s.drop_last()) {
            lemma_join_pairs_ordered(sp, k, i, j + 1);
            let here = if s.last() < t.last() {
                seq![s.push(t.last())]
            } else {
                Seq::<Seq<u32>>::empty()
            };
            let rest = join_pairs(sp, i, j + 1);
            let all = here + rest;
            assert forall|w: int| 0 <= w < all.len() implies exists|m: int|
                j <= m < sp.len() && sp[m].drop_last() == s.drop_last() && #[trigger] all[w] == s.push(sp[m].last()) by {
                if w < here.len() {
                    assert(all[w] == s.push(t.last()));
                } else {
                    assert(all[w] == rest[w - here.len()]);
                }
            }
            assert forall|a: int, b: int| 0 <= a < b < all.len() implies lex_less(#[trigger] all[a], #[trigger] all[b]) by {
                if a >= here.len() {
                    assert(all[a] == rest[a - here.len()]);
                    assert(all[b] == rest[b - here.len()]);
                } else {
                    assert(all[a] == s.push(t.last()));
                    assert(all[b] == rest[b - here.len()]);
                    let m = choose|m: int|
                        j + 1 <= m < sp.len() && sp[m].drop_last() == s.drop_last() && rest[b - here.len()] == s.push(sp[m].last());
                    assert(lex_less(sp[j as int], sp[m]));
                    let u = sp[m];
                    assert(t.len() == k && u.len() == k);
                    assert forall|x: int| 0 <= x < k - 1 implies t[x] == u[x] by {
                        assert(t[x] == t.drop_last()[x]);
                        assert(u[x] == u.drop_last()[x]);
                    }
                    if u.last() <= t.last() {
                        if u.last() < t.last() {
                            lemma_lex_at(u, t, (k - 1) as nat, 0);
                            lemma_lex_trans(t, u, t, 0);
                            lemma_lex_irrefl(t, 0);
                        } else {
                            assert(t =~= u);
                            lemma_lex_irrefl(t, 0);
                        }
                    }
                    let sx = s.push(t.last());
                    let sy = s.push(u.last());
                    assert(s.len() == k);
                    lemma_lex_at(sx, sy, k, 0);
                }
            }
        }
    }
}

proof fn lemma_join_from_ordered(sp: Seq<Seq<u32>>, k: nat, i: nat)
    requires
        k >= 1,
        ascending(sp, k),
    ensures
        lex_ascending(join_from(sp, i)),
        forall|w: int| 0 <= w < join_from(sp, i).len() ==> exists|m: int, z: u32|
            i <= m < sp.len() && #[trigger] join_from(sp, i)[w] == sp[m].push(z),
    decreases sp.len() - i,
{
    if i < sp.len() {
        lemma_join_from_ordered(sp, k, i + 1);
        lemma_join_pairs_ordered(sp, k, i, i + 1);
        let mine = join_pairs(sp, i, i + 1);
        assert(sp[i as int].len() == k);
        let rest = join_from(sp, i + 1);
        let all = mine + rest;
        assert(join_from(sp, i) == all);
        assert forall|w: int| 0 <= w < all.len() implies exists|m: int, z: u32|
            i <= m < sp.len() && #[trigger] all[w] == sp[m].push(z) by {
            if w < mine.len() {
                assert(all[w] == mine[w]);
                let m = choose|m: int|
                    i + 1 <= m < sp.len() && sp[m].drop_last() == sp[i as int].drop_last() && mine[w] == sp[i as int].push(sp[m].last());
                assert(all[w] == sp[i as int].push(sp[m].last()));
            } else {
                assert(all[w] == rest[w - mine.len()]);
            }
        }
        assert forall|a: int, b: int| 0 <= a < b < all.len() implies lex_less(#[trigger] all[a], #[trigger] all[b]) by {
            if b < mine.len() {
                assert(all[a] == mine[a] && all[b] == mine[b]);
            } else if a >= mine.len() {
                assert(all[a] == rest[a - mine.len()] && all[b] == rest[b - mine.len()]);
            } else {
                assert(all[a] == mine[a] && all[b] == rest[b - mine.len()]);
                let m1 = choose|m: int|
                    i + 1 <= m < sp.len() && sp[m].drop_last() == sp[i as int].drop_last() && mine[a] == sp[i as int].push(sp[m].last());
                let (m2, z2) = choose|m: int, z: u32| i + 1 <= m < sp.len() && rest[b - mine.len()] == sp[m].push(z);
                assert(lex_less(sp[i as int], sp[m2]));
                lemma_lex_push(sp[i as int], sp[m2], sp[m1].last(), z2, 0);
            }
        }
    }
}

/// Over a layer of distinct `k`-sets, the prefix join is strictly ascending
/// in `tuple` order: each join comes out once, in order.
pub proof fn lemma_prefix_join_ordered(prev: Seq<Seq<u32>>, k: nat)
    requires
        k >= 1,
        forall|m: int| 0 <= m < prev.len() ==> (#[trigger] prev[m]).len() == k,
        prev.no_duplicates(),
    ensures
        lex_ascending(prefix_join(prev)),
{
    let sp = sort_lex(prev);
    lemma_sort_is_permutation(prev);
    lemma_sorted_prefix_sorted(prev, prev.len());
    broadcast use vstd::seq_lib::group_to_multiset_ensures;

    assert forall|m: int| 0 <= m < sp.len() implies (#[trigger] sp[m]).len() == k by {
        assert(sp.to_multiset().count(sp[m]) > 0);
        assert(prev.to_multiset().count(sp[m]) > 0);
        let w = choose|w: int| 0 <= w < prev.len() && prev[w] == sp[m];
    }
    assert forall|i: int, j: int| 0 <= i < j < sp.len() implies lex_less(#[trigger] sp[i], #[trigger] sp[j]) by {
        assert(!lex_less(sp[j], sp[i]));
        if sp[i] == sp[j] {
            assert(sp.to_multiset().count(sp[i]) >= 2) by {
                lemma_count_two(sp, i, j);
            }
            prev.lemma_multiset_has_no_duplicates();
            assert(prev.to_multiset().count(sp[i]) <= 1) by {
                if prev.to_multiset().count(sp[i]) > 1 {
                    assert(prev.to_multiset().count(sp[i]) > 0);
                }
            }
        } else {
            if forall|x: int| 0 <= x < k ==> sp[i][x] == sp[j][x] {
                assert(sp[i] =~= sp[j]);
            }
            lemma_lex_total(sp[i], sp[j], 0);
        }
    }
    assert(ascending(sp, k));
    lemma_join_from_ordered(sp, k, 0);
}

proof fn lemma_count_two(s: Seq<Seq<u32>>, i: int, j: int)
    requires
        0 <= i < j < s.len(),
        s[i] == s[j],
    ensures
        s.to_multiset().count(s[i]) >= 2,
{
    broadcast use vstd::seq_lib::group_to_multiset_ensures;
    let x = s[i];
    let a = s.take(j);
    let b = s.skip(j);
    assert(s =~= a + b);
    vstd::seq_lib::lemma_multiset_commutative(a, b);
    assert(a.to_multiset().count(x) > 0) by {
        assert(a[i] == x);
    }
    assert(b.to_multiset().count(x) > 0) by {
        assert(b[0] == x);
    }
}

// ── Executable arithmetic ─────────────────────────────────────────────

/// A hypothesis set's members, in whatever order the hash set yields them
/// — `HashSet::iter`, collected.
#[verifier::external_body]
fn members(s: &FxHashSet<u32>) -> (v: Vec<u32>)
    ensures
        forall|x: u32| v@.contains(x) <==> s@.contains(x),
{
    s.iter().copied().collect()
}

/// Sort + dedup into a [`CanonicalSetId`].
pub fn canonicalise(elements: Vec<u32>) -> (r: CanonicalSetId)
    ensures
        strictly_sorted(r@),
        forall|x: u32| r@.contains(x) <==> elements@.contains(x),
{
    let mut out: Vec<u32> = Vec::new();
    let mut i: usize = 0;
    while i < elements.len()
        invariant
            i <= elements@.len(),
            strictly_sorted(out@),
            forall|x: u32| out@.contains(x) <==> elements@.take(i as int).contains(x),
        decreases elements@.len() - i,
    {
        let x = elements[i];
        let mut p: usize = 0;
        while p < out.len() && out[p] < x
            invariant
                p <= out@.len(),
                forall|q: int| 0 <= q < p ==> out@[q] < x,
            decreases out@.len() - p,
        {
            p = p + 1;
        }
        let ghost before = out@;
        proof {
            broadcast use vstd::seq_lib::group_seq_properties;
            assert(elements@.take(i + 1) =~= elements@.take(i as int).push(x));
        }
        if p < out.len() && out[p] == x {
            assert(before[p as int] == x);
            assert(before.contains(x));
            proof {
                let t0 = elements@.take(i as int);
                let t1 = elements@.take(i + 1);
                assert(t1 =~= t0.push(x));
                assert forall|y: u32| out@.contains(y) <==> t1.contains(y) by {
                    if t1.contains(y) {
                        let w = choose|w: int| 0 <= w < t1.len() && t1[w] == y;
                        if w < i {
                            assert(t0[w] == y);
                            assert(t0.contains(y));
                        }
                    }
                    if out@.contains(y) {
                        assert(t0.contains(y));
                        let w = choose|w: int| 0 <= w < t0.len() && t0[w] == y;
                        assert(t1[w] == y);
                    }
                }
            }
        } else {
            out.insert(p, x);
            proof {
                assert forall|a: int, b: int| 0 <= a < b < out@.len() implies out@[a] < out@[b] by {
                    if b < p as int {
                    } else if b == p as int {
                    } else if a < p as int {
                        assert(out@[b] == before[b - 1]);
                        if a < p as int {
                            assert(before[a] < x);
                            if p < before.len() {
                                assert(x < before[p as int] || x == before[p as int] || true);
                            }
                        }
                        if p as int <= b - 1 {
                            assert(before[p as int] <= before[b - 1]) by {
                                if (p as int) < b - 1 {
                                    assert(before[p as int] < before[b - 1]);
                                }
                            }
                        }
                    } else if a == p as int {
                        assert(out@[b] == before[b - 1]);
                        assert(x < before[p as int]) by {
                            assert(!(before[p as int] < x));
                            assert(before[p as int] != x);
                        }
                        if (p as int) < b - 1 {
                            assert(before[p as int] < before[b - 1]);
                        }
                    } else {
                        assert(out@[a] == before[a - 1]);
                        assert(out@[b] == before[b - 1]);
                    }
                }
                assert forall|y: u32| out@.contains(y) <==> before.contains(y) || y == x by {
                    if out@.contains(y) {
                        let w = choose|w: int| 0 <= w < out@.len() && out@[w] == y;
                        if w < p {
                            assert(before[w] == y);
                        } else if w > p {
                            assert(before[w - 1] == y);
                        }
                    }
                    if before.contains(y) {
                        let w = choose|w: int| 0 <= w < before.len() && before[w] == y;
                        if w < p {
                            assert(out@[w] == y);
                        } else {
                            assert(out@[w + 1] == y);
                        }
                    }
                    if y == x {
                        assert(out@[p as int] == x);
                    }
                }
                let t0 = elements@.take(i as int);
                let t1 = elements@.take(i + 1);
                assert(t1 =~= t0.push(x));
                assert forall|y: u32| out@.contains(y) <==> t1.contains(y) by {
                    if t1.contains(y) {
                        let w = choose|w: int| 0 <= w < t1.len() && t1[w] == y;
                        if w < i {
                            assert(t0[w] == y);
                            assert(t0.contains(y));
                        }
                    }
                    if before.contains(y) {
                        assert(t0.contains(y));
                        let w = choose|w: int| 0 <= w < t0.len() && t0[w] == y;
                        assert(t1[w] == y);
                    }
                    if y == x {
                        assert(t1[i as int] == x);
                    }
                }
            }
        }
        i = i + 1;
    }
    assert(elements@.take(elements@.len() as int) =~= elements@);
    out
}

/// `-1`, `0` or `1` as `a` comes before, equals or comes after `b` in
/// `tuple` order.
fn lex_sign(a: &[u32], b: &[u32]) -> (r: i8)
    ensures
        (r == -1) == lex_less(a@, b@),
        (r == 1) == lex_less(b@, a@),
        (r == 0) == (a@ == b@),
        r == -1 || r == 0 || r == 1,
{
    let mut i: usize = 0;
    while i < a.len() && i < b.len()
        invariant
            i <= a@.len(),
            i <= b@.len(),
            forall|q: int| 0 <= q < i ==> a@[q] == b@[q],
            lex_less(a@, b@) == lex_less_from(a@, b@, i as nat),
            lex_less(b@, a@) == lex_less_from(b@, a@, i as nat),
        decreases a@.len() - i,
    {
        if a[i] != b[i] {
            if a[i] < b[i] {
                return -1;
            } else {
                return 1;
            }
        }
        i = i + 1;
    }
    if a.len() < b.len() {
        -1
    } else if a.len() > b.len() {
        1
    } else {
        assert(a@ =~= b@);
        0
    }
}

/// `tuple` ordering over two canonical sets: element-wise, then by length.
pub fn cmp_set(a: &[u32], b: &[u32]) -> (o: std::cmp::Ordering)
    ensures
        (o == std::cmp::Ordering::Less) == lex_less(a@, b@),
        (o == std::cmp::Ordering::Greater) == lex_less(b@, a@),
        (o == std::cmp::Ordering::Equal) == (a@ == b@),
{
    let r = lex_sign(a, b);
    if r < 0 {
        std::cmp::Ordering::Less
    } else if r > 0 {
        std::cmp::Ordering::Greater
    } else {
        std::cmp::Ordering::Equal
    }
}

pub(crate) fn precedes(a: &Vec<u32>, b: &Vec<u32>) -> (r: bool)
    ensures
        r == lex_less(a@, b@),
{
    lex_sign(a.as_slice(), b.as_slice()) == -1
}

fn copy_set(s: &Vec<u32>) -> (r: Vec<u32>)
    ensures
        r@ == s@,
{
    let r = s.clone();
    assert(r@ =~= s@);
    r
}

/// `a_prev`, sorted into `tuple` order (an insertion sort, stable).
pub fn order_lex(prev: &[Vec<u32>]) -> (r: Vec<Vec<u32>>)
    ensures
        views(r@) == sort_lex(views(prev@)),
{
    let ghost s = views(prev@);
    let mut out: Vec<Vec<u32>> = Vec::new();
    let mut n: usize = 0;
    assert(views(out@) =~= sorted_prefix(s, 0));
    while n < prev.len()
        invariant
            n <= prev@.len(),
            s == views(prev@),
            views(out@) == sorted_prefix(s, n as nat),
        decreases prev@.len() - n,
    {
        proof {
            lemma_sorted_prefix_len(s, n as nat);
        }
        let x = &prev[n];
        let mut p: usize = 0;
        while p < out.len() && !precedes(x, &out[p])
            invariant
                p <= out@.len(),
                views(out@) == sorted_prefix(s, n as nat),
                x@ == s[n as int],
                insert_pos(x@, views(out@), 0) == insert_pos(x@, views(out@), p as nat),
            decreases out@.len() - p,
        {
            assert(views(out@)[p as int] == out@[p as int]@);
            p = p + 1;
        }
        proof {
            if p < out@.len() {
                assert(views(out@)[p as int] == out@[p as int]@);
            }
        }
        let ghost before = views(out@);
        out.insert(p, copy_set(x));
        assert(views(out@) =~= before.insert(p as int, s[n as int]));
        n = n + 1;
    }
    out
}

/// Is `t`'s prefix (all but its last element) `s`'s?
fn same_prefix(s: &Vec<u32>, t: &Vec<u32>) -> (r: bool)
    requires
        s@.len() > 0,
        t@.len() > 0,
    ensures
        r == (t@.drop_last() == s@.drop_last()),
{
    if s.len() != t.len() {
        assert(t@.drop_last().len() != s@.drop_last().len());
        return false;
    }
    let n = s.len();
    let mut q: usize = 0;
    while q < n - 1
        invariant
            n == s@.len(),
            n >= 1,
            q <= n - 1,
            s@.len() == t@.len(),
            forall|w: int| 0 <= w < q ==> s@[w] == t@[w],
        decreases n - q,
    {
        if s[q] != t[q] {
            assert(t@.drop_last()[q as int] != s@.drop_last()[q as int]);
            return false;
        }
        q = q + 1;
    }
    assert(t@.drop_last() =~= s@.drop_last());
    true
}

/// Textbook Apriori-gen prefix-join: for each pair `(s, t)` agreeing on
/// their first `|s|-1` elements with `s[-1] < t[-1]`, emit
/// `s[:-1] + (s[-1], t[-1])`. The scan for partners stops at the first
/// prefix mismatch.
pub fn apriori_prefix_join(a_prev: &[Vec<u32>]) -> (r: Vec<CanonicalSetId>)
    ensures
        views(r@) == prefix_join(views(a_prev@)),
{
    let sorted = order_lex(a_prev);
    let ghost sp = views(sorted@);
    let mut out: Vec<Vec<u32>> = Vec::new();
    let mut i: usize = 0;
    assert(views(out@) =~= Seq::<Seq<u32>>::empty());
    while i < sorted.len()
        invariant
            i <= sp.len(),
            sp == views(sorted@),
            sp == sort_lex(views(a_prev@)),
            join_from(sp, 0) == views(out@) + join_from(sp, i as nat),
        decreases sp.len() - i,
    {
        let s = &sorted[i];
        assert(s@ == sp[i as int]);
        let ghost start = views(out@);
        if s.len() > 0 {
            let mut j: usize = i + 1;
            let mut stop = false;
            let ghost mut produced: Seq<Seq<u32>> = Seq::empty();
            while j < sorted.len() && !stop
                invariant
                    i < j <= sp.len(),
                    sp == views(sorted@),
                    s@ == sp[i as int],
                    s@.len() > 0,
                    views(out@) == start + produced,
                    join_pairs(sp, i as nat, (i + 1) as nat) == produced + (if stop {
                        Seq::empty()
                    } else {
                        join_pairs(sp, i as nat, j as nat)
                    }),
                decreases sp.len() - j + (if stop {
                    0int
                } else {
                    1int
                }),
            {
                let t = &sorted[j];
                assert(t@ == sp[j as int]);
                if t.len() == 0 || !same_prefix(s, t) {
                    stop = true;
                    assert(produced =~= produced + Seq::<Seq<u32>>::empty());
                } else {
                    let s_last = s[s.len() - 1];
                    let t_last = t[t.len() - 1];
                    let ghost before = views(out@);
                    let ghost rest = join_pairs(sp, i as nat, (j + 1) as nat);
                    if s_last < t_last {
                        let mut c = copy_set(s);
                        c.push(t_last);
                        out.push(c);
                        assert(views(out@) =~= before.push(s@.push(t_last)));
                        proof {
                            assert(join_pairs(sp, i as nat, j as nat) == seq![s@.push(t_last)] + rest);
                            assert(produced + join_pairs(sp, i as nat, j as nat) =~= produced.push(
                                s@.push(t_last),
                            ) + rest);
                            produced = produced.push(s@.push(t_last));
                        }
                    } else {
                        assert(join_pairs(sp, i as nat, j as nat) =~= rest);
                    }
                    j = j + 1;
                }
            }
            proof {
                if !stop {
                    assert(join_pairs(sp, i as nat, j as nat) == Seq::<Seq<u32>>::empty());
                }
                assert(join_pairs(sp, i as nat, (i + 1) as nat) =~= produced);
            }
            assert(join_from(sp, i as nat) =~= produced + join_from(sp, (i + 1) as nat));
        } else {
            assert(join_from(sp, i as nat) =~= join_from(sp, (i + 1) as nat));
        }
        assert(join_from(sp, 0) =~= views(out@) + join_from(sp, (i + 1) as nat));
        i = i + 1;
    }
    assert(views(out@) =~= views(out@) + join_from(sp, i as nat));
    out
}

/// `clause ⊆ set`, both ascending — a merge walk rather than a hash set
/// per candidate.
pub fn is_subset(clause: &[u32], set: &[u32]) -> (r: bool)
    requires
        strictly_sorted(clause@),
        strictly_sorted(set@),
    ensures
        r == subset_of(clause@, set@),
{
    let mut j: usize = 0;
    let mut i: usize = 0;
    while i < clause.len()
        invariant
            i <= clause@.len(),
            j <= set@.len(),
            strictly_sorted(clause@),
            strictly_sorted(set@),
            forall|q: int| 0 <= q < i ==> set@.contains(#[trigger] clause@[q]),
            i < clause@.len() ==> forall|q: int| 0 <= q < j ==> set@[q] < clause@[i as int],
        decreases clause@.len() - i,
    {
        let c = clause[i];
        let mut found = false;
        while j < set.len() && !found
            invariant
                j <= set@.len(),
                i < clause@.len(),
                c == clause@[i as int],
                strictly_sorted(set@),
                !found ==> forall|q: int| 0 <= q < j ==> set@[q] != c,
                found ==> j >= 1 && set@[j - 1] == c,
            decreases set@.len() - j,
        {
            if set[j] == c {
                found = true;
            }
            j = j + 1;
        }
        if !found {
            proof {
                assert(!set@.contains(c)) by {
                    if set@.contains(c) {
                        let w = choose|w: int| 0 <= w < set@.len() && set@[w] == c;
                        assert(set@[w] != c);
                    }
                }
                assert(clause@.contains(c));
            }
            return false;
        }
        proof {
            assert(set@.contains(c));
            if i + 1 < clause@.len() {
                assert(c < clause@[i + 1]);
                assert forall|q: int| 0 <= q < j implies set@[q] < clause@[i + 1] by {
                    if q < j - 1 {
                        assert(set@[q] < set@[j - 1]);
                    }
                }
            }
        }
        i = i + 1;
    }
    proof {
        assert forall|x: u32| clause@.contains(x) implies set@.contains(x) by {
            let w = choose|w: int| 0 <= w < clause@.len() && clause@[w] == x;
            assert(set@.contains(clause@[w]));
        }
    }
    true
}

/// True iff `candidate` should be explored: no element has left `alive`,
/// and no learned clause is a subset of it.
pub fn filter_candidate(candidate: &[u32], alive: &FxHashSet<u32>, nogoods: &[Vec<u32>]) -> (r: bool)
    requires
        forall|c: int| 0 <= c < nogoods@.len() ==> strictly_sorted(#[trigger] nogoods@[c]@),
    ensures
        r == keeps(candidate@, alive@, views(nogoods@)),
{
    let mut i: usize = 0;
    while i < candidate.len()
        invariant
            i <= candidate@.len(),
            forall|q: int| 0 <= q < i ==> alive@.contains(#[trigger] candidate@[q]),
        decreases candidate@.len() - i,
    {
        if !contains_id(alive, candidate[i]) {
            assert(candidate@.contains(candidate@[i as int]));
            return false;
        }
        i = i + 1;
    }
    assert forall|x: u32| candidate@.contains(x) implies alive@.contains(x) by {
        let w = choose|w: int| 0 <= w < candidate@.len() && candidate@[w] == x;
        assert(alive@.contains(candidate@[w]));
    }
    let mut v: Vec<u32> = Vec::new();
    let mut k: usize = 0;
    while k < candidate.len()
        invariant
            k <= candidate@.len(),
            v@ == candidate@.take(k as int),
        decreases candidate@.len() - k,
    {
        v.push(candidate[k]);
        assert(v@ =~= candidate@.take(k + 1));
        k = k + 1;
    }
    assert(v@ =~= candidate@);
    let set = canonicalise(v);
    let mut c: usize = 0;
    while c < nogoods.len()
        invariant
            c <= nogoods@.len(),
            strictly_sorted(set@),
            forall|x: u32| set@.contains(x) <==> candidate@.contains(x),
            forall|q: int| 0 <= q < nogoods@.len() ==> strictly_sorted(#[trigger] nogoods@[q]@),
            forall|q: int| 0 <= q < c ==> !subset_of(#[trigger] views(nogoods@)[q], candidate@),
        decreases nogoods@.len() - c,
    {
        let hit = is_subset(nogoods[c].as_slice(), set.as_slice());
        assert(views(nogoods@)[c as int] == nogoods@[c as int]@);
        assert(subset_of(nogoods@[c as int]@, set@) == subset_of(nogoods@[c as int]@, candidate@));
        if hit {
            return false;
        }
        c = c + 1;
    }
    true
}

/// Prefix-join then per-candidate filter — the survivors in the join's
/// emission order.
pub fn generate_layer(a_prev: &[Vec<u32>], alive: &FxHashSet<u32>, nogoods: &[Vec<u32>]) -> (r: Vec<
    CanonicalSetId,
>)
    requires
        forall|c: int| 0 <= c < nogoods@.len() ==> strictly_sorted(#[trigger] nogoods@[c]@),
    ensures
        views(r@) == kept(prefix_join(views(a_prev@)), alive@, views(nogoods@)),
{
    let joined = apriori_prefix_join(a_prev);
    let ghost cands = views(joined@);
    let mut out: Vec<Vec<u32>> = Vec::new();
    let mut i: usize = 0;
    assert(views(out@) =~= kept(cands.take(0), alive@, views(nogoods@)));
    while i < joined.len()
        invariant
            i <= cands.len(),
            cands == views(joined@),
            forall|c: int| 0 <= c < nogoods@.len() ==> strictly_sorted(#[trigger] nogoods@[c]@),
            views(out@) == kept(cands.take(i as int), alive@, views(nogoods@)),
        decreases cands.len() - i,
    {
        proof {
            lemma_kept_step(cands, i as int, alive@, views(nogoods@));
        }
        assert(joined@[i as int]@ == cands[i as int]);
        if filter_candidate(joined[i].as_slice(), alive, nogoods) {
            let ghost before = views(out@);
            out.push(copy_set(&joined[i]));
            assert(views(out@) =~= before.push(cands[i as int]));
        }
        i = i + 1;
    }
    assert(cands.take(cands.len() as int) =~= cands);
    out
}

/// The first element of each set.
pub open spec fn firsts(v: Seq<Vec<u32>>) -> Seq<u32> {
    Seq::new(v.len(), |i: int| v[i]@[0])
}

/// Every singleton from `alive`, sorted — the traversal's entry point and
/// the one place the whole traversal order is decided.
pub fn layer_1(alive: &FxHashSet<u32>) -> (r: Vec<CanonicalSetId>)
    ensures
        forall|i: int| 0 <= i < r@.len() ==> (#[trigger] r@[i])@.len() == 1,
        strictly_sorted(firsts(r@)),
        forall|x: u32| firsts(r@).contains(x) <==> alive@.contains(x),
{
    let ids = canonicalise(members(alive));
    let mut out: Vec<Vec<u32>> = Vec::new();
    let mut i: usize = 0;
    while i < ids.len()
        invariant
            i <= ids@.len(),
            out@.len() == i,
            forall|q: int| 0 <= q < i ==> (#[trigger] out@[q])@ == seq![ids@[q]],
        decreases ids@.len() - i,
    {
        let mut one: Vec<u32> = Vec::new();
        one.push(ids[i]);
        out.push(one);
        i = i + 1;
    }
    assert(firsts(out@) =~= ids@);
    out
}

/// The lattice order a mode name selects, or the error for an unknown
/// one.
pub open spec fn order_mode_of(mode: Seq<char>) -> Result<OrderMode, Seq<char>> {
    if mode == seq!['l', 'e', 'x'] {
        Ok(OrderMode::Lex)
    } else if mode == seq!['s', 'c', 'o', 'r', 'e', '-', 's', 'u', 'm'] {
        Ok(OrderMode::ScoreSum)
    } else {
        Err(
            "unknown lattice_order mode: "@ + py_repr(mode) + " (expected 'lex' or 'score-sum')"@,
        )
    }
}

/// Within-layer ordering: `"lex"` is canonical-tuple order, `"score-sum"`
/// sums hypothesis scores, and any other name is an error.
pub fn order_mode(mode: &str) -> (r: Result<OrderMode, ScoreError>)
    ensures
        match (r, order_mode_of(mode@)) {
            (Ok(m), Ok(n)) => m == n,
            (Err(ScoreError::Unknown(msg)), Err(text)) => msg@ == text,
            _ => false,
        },
{
    proof {
        reveal_strlit("lex");
        reveal_strlit("score-sum");
        assert("lex"@ =~= seq!['l', 'e', 'x']);
        assert("score-sum"@ =~= seq!['s', 'c', 'o', 'r', 'e', '-', 's', 'u', 'm']);
    }
    if str_eq(mode, "lex") {
        Ok(OrderMode::Lex)
    } else if str_eq(mode, "score-sum") {
        Ok(OrderMode::ScoreSum)
    } else {
        let mut msg = String::new();
        msg.append("unknown lattice_order mode: ");
        push_repr(&mut msg, mode);
        msg.append(" (expected 'lex' or 'score-sum')");
        Err(ScoreError::Unknown(msg))
    }
}

} // verus!
