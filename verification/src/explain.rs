//! Minimal explanation over the AND/OR proof graph — the ATMS label search.
//!
//! A fact is an OR-node over the derivations the store retained for it, and
//! each derivation is an AND-node over its premises. For each fact the search
//! computes an ATMS label: the subset-minimal environments (sets of given
//! facts) it follows from, smallest first. A `source` / `hypothesis` fact is
//! a leaf labelled `{{itself}}`; a rule derivation with no premises is a
//! synthetic writeback labelled `{∅}`; an interior fact folds each
//! justification's premise labels by union and keeps the minimal results.
//!
//! Labels start empty and only improve, so a cyclic justification graph is
//! safe: a fact never grounds itself. Every cap in [`ExplanationBudget`] only
//! ever discards environments, and each survivor is still a real set of
//! derivation leaves — [`lemma_labels_are_derivation_leaves`] and
//! [`explain`]'s contract state it.
//!
//! A fact is handled here by its id, which is its **content rank**: the
//! position of its `(relation, args)` in the content order every tie-break
//! goes through. An environment is therefore the ascending vector of its
//! facts' ids, union is a merge and the subset test is a merge.
use vstd::prelude::*;

use crate::contradiction::{detect, Contradiction, FactBase};
use crate::text::{lemma_text_irrefl, lemma_text_total, lemma_text_trans, str_less, text_less};
use crate::apriori::{is_subset, lemma_canonical_unique, lex_less, lex_less_from, precedes, strictly_sorted, subset_of, views};

verus! {

broadcast use vstd::seq_lib::seq_to_set_is_finite;

/// An environment: frontier facts, ascending.
pub type Env = Vec<u32>;

/// Anytime budget for the label search. Every cap is sound: truncation only
/// discards environments.
#[derive(Clone, Copy, PartialEq, Eq, Debug)]
pub struct ExplanationBudget {
    /// Environments kept per label, smallest first.
    pub max_environments: usize,
    /// Fixpoint iterations before giving up.
    pub max_rounds: usize,
    /// Drop environments larger than this; `None` keeps all sizes.
    pub max_env_size: Option<usize>,
    /// Refuse to search a premise closure larger than this.
    pub max_facts: usize,
}

impl Default for ExplanationBudget {
    fn default() -> (b: Self)
        ensures
            b.max_environments == 64,
            b.max_rounds == 64,
            b.max_env_size is None,
            b.max_facts == 20_000,
    {
        ExplanationBudget { max_environments: 64, max_rounds: 64, max_env_size: None, max_facts: 20_000 }
    }
}

// ── Environments ─────────────────────────────────────────────────────

/// `a` strictly before `b` in the `(len, ranks)` order environments are
/// kept in.
pub open spec fn env_less(a: Seq<u32>, b: Seq<u32>) -> bool {
    a.len() < b.len() || (a.len() == b.len() && lex_less(a, b))
}

/// Strictly ascending in the environment order.
pub open spec fn env_sorted(s: Seq<Seq<u32>>) -> bool {
    forall|i: int, j: int| 0 <= i < j < s.len() ==> env_less(s[i], s[j])
}

/// Within the budget's size cap.
pub open spec fn size_ok(e: Seq<u32>, bound: Option<usize>) -> bool {
    match bound {
        Some(m) => e.len() <= m,
        None => true,
    }
}

/// How many environments a label keeps: the cap, and never fewer than one.
pub open spec fn cap_of(budget: ExplanationBudget) -> nat {
    if budget.max_environments == 0 {
        1
    } else {
        budget.max_environments as nat
    }
}

/// Some environment of `by` lies inside `e`.
pub open spec fn covered(e: Seq<u32>, by: Seq<Seq<u32>>) -> bool {
    exists|i: int| 0 <= i < by.len() && subset_of(#[trigger] by[i], e)
}

/// No environment of `s` lies inside another.
pub open spec fn antichain(s: Seq<Seq<u32>>) -> bool {
    forall|i: int, j: int| 0 <= i < s.len() && 0 <= j < s.len() && i != j ==> !subset_of(#[trigger] s[i], #[trigger] s[j])
}

/// Every environment of `s` is a canonical set.
pub open spec fn all_canonical(s: Seq<Seq<u32>>) -> bool {
    forall|i: int| 0 <= i < s.len() ==> strictly_sorted(#[trigger] s[i])
}

proof fn lemma_lex_from_irrefl(a: Seq<u32>, i: nat)
    ensures
        !lex_less_from(a, a, i),
    decreases a.len() - i,
{
    if i < a.len() {
        lemma_lex_from_irrefl(a, i + 1);
    }
}

proof fn lemma_lex_from_trans(a: Seq<u32>, b: Seq<u32>, c: Seq<u32>, i: nat)
    requires
        lex_less_from(a, b, i),
        lex_less_from(b, c, i),
    ensures
        lex_less_from(a, c, i),
    decreases a.len() - i,
{
    if i < a.len() && i < b.len() && i < c.len() && a[i as int] == b[i as int] && b[i as int]
        == c[i as int] {
        lemma_lex_from_trans(a, b, c, i + 1);
    }
}

proof fn lemma_lex_from_total(a: Seq<u32>, b: Seq<u32>, i: nat)
    requires
        i <= a.len(),
        i <= b.len(),
        forall|q: int| 0 <= q < i ==> a[q] == b[q],
        a != b,
    ensures
        lex_less_from(a, b, i) || lex_less_from(b, a, i),
    decreases a.len() - i,
{
    if i < a.len() && i < b.len() && a[i as int] == b[i as int] {
        lemma_lex_from_total(a, b, i + 1);
    } else if i == a.len() && i == b.len() {
        assert(a =~= b);
    }
}

proof fn lemma_env_irrefl(a: Seq<u32>)
    ensures
        !env_less(a, a),
{
    lemma_lex_from_irrefl(a, 0);
}

proof fn lemma_env_trans(a: Seq<u32>, b: Seq<u32>, c: Seq<u32>)
    requires
        env_less(a, b),
        env_less(b, c),
    ensures
        env_less(a, c),
{
    if a.len() == b.len() && b.len() == c.len() {
        lemma_lex_from_trans(a, b, c, 0);
    }
}

proof fn lemma_env_total(a: Seq<u32>, b: Seq<u32>)
    requires
        a != b,
    ensures
        env_less(a, b) || env_less(b, a),
{
    if a.len() == b.len() {
        lemma_lex_from_total(a, b, 0);
    }
}

proof fn lemma_env_asym(a: Seq<u32>, b: Seq<u32>)
    requires
        env_less(a, b),
    ensures
        !env_less(b, a),
{
    if env_less(b, a) {
        lemma_env_trans(a, b, a);
        lemma_env_irrefl(a);
    }
}

/// A canonical set has as many members as elements.
proof fn lemma_canonical_card(a: Seq<u32>)
    requires
        strictly_sorted(a),
    ensures
        a.to_set().len() == a.len(),
        a.to_set().finite(),
{
    assert(a.no_duplicates()) by {
        assert forall|i: int, j: int| 0 <= i < a.len() && 0 <= j < a.len() && i != j implies a[i]
            != a[j] by {
            if i < j {
                assert(a[i] < a[j]);
            } else {
                assert(a[j] < a[i]);
            }
        }
    }
    a.unique_seq_to_set();
}

/// A canonical subset is no longer than its superset, and one as long is the
/// superset itself.
proof fn lemma_subset_len(a: Seq<u32>, b: Seq<u32>)
    requires
        strictly_sorted(a),
        strictly_sorted(b),
        subset_of(a, b),
    ensures
        a.len() <= b.len(),
        a.len() >= b.len() ==> a == b,
{
    lemma_canonical_card(a);
    lemma_canonical_card(b);
    assert(a.to_set().subset_of(b.to_set()));
    vstd::set_lib::lemma_len_subset(a.to_set(), b.to_set());
    if a.len() >= b.len() {
        vstd::set_lib::lemma_subset_equality(a.to_set(), b.to_set());
        assert forall|x: u32| a.contains(x) <==> b.contains(x) by {
            assert(a.to_set().contains(x) == b.to_set().contains(x));
        }
        lemma_canonical_unique(a, b);
    }
}

/// An environment-sorted sequence holds each environment once, so it is as
/// long as the set of what it holds.
proof fn lemma_env_sorted_card(s: Seq<Seq<u32>>)
    requires
        env_sorted(s),
    ensures
        s.to_set().len() == s.len(),
{
    assert(s.no_duplicates()) by {
        assert forall|i: int, j: int| 0 <= i < s.len() && 0 <= j < s.len() && i != j implies s[i]
            != s[j] by {
            if i < j {
                assert(env_less(s[i], s[j]));
            } else {
                assert(env_less(s[j], s[i]));
            }
            lemma_env_irrefl(s[i]);
        }
    }
    s.unique_seq_to_set();
}

fn env_less_exec(a: &Vec<u32>, b: &Vec<u32>) -> (r: bool)
    ensures
        r == env_less(a@, b@),
{
    a.len() < b.len() || (a.len() == b.len() && precedes(a, b))
}

fn copy_env(e: &Vec<u32>) -> (r: Vec<u32>)
    ensures
        r@ == e@,
{
    let r = e.clone();
    assert(r@ =~= e@);
    r
}

/// The canonical set holding what `a` or `b` holds.
pub open spec fn union_of(a: Seq<u32>, b: Seq<u32>) -> Seq<u32> {
    choose|r: Seq<u32>| strictly_sorted(r) && forall|x: u32| r.contains(x) <==> (a.contains(x) || b.contains(x))
}

/// The union of two environments, as a merge.
fn union(a: &[u32], b: &[u32]) -> (r: Env)
    requires
        strictly_sorted(a@),
        strictly_sorted(b@),
    ensures
        strictly_sorted(r@),
        forall|x: u32| r@.contains(x) <==> (a@.contains(x) || b@.contains(x)),
        r@ == union_of(a@, b@),
{
    let mut out: Vec<u32> = Vec::new();
    let mut i: usize = 0;
    let mut j: usize = 0;
    while i < a.len() && j < b.len()
        invariant
            i <= a@.len(),
            j <= b@.len(),
            strictly_sorted(a@),
            strictly_sorted(b@),
            strictly_sorted(out@),
            forall|x: u32| out@.contains(x) <==> (a@.take(i as int).contains(x) || b@.take(
                j as int,
            ).contains(x)),
            out@.len() > 0 ==> (i < a@.len() ==> out@.last() < a@[i as int]) && (j < b@.len()
                ==> out@.last() < b@[j as int]),
        decreases a@.len() + b@.len() - i - j,
    {
        let ghost before = out@;
        let ghost i1 = i;
        let ghost j1 = j;
        let x: u32;
        if a[i] < b[j] {
            x = a[i];
            i = i + 1;
        } else if b[j] < a[i] {
            x = b[j];
            j = j + 1;
        } else {
            x = a[i];
            i = i + 1;
            j = j + 1;
        }
        out.push(x);
        proof {
            lemma_push_canonical(before, x);
            assert(out@ == before.push(x));
            assert forall|y: u32| out@.contains(y) <==> (a@.take(i as int).contains(y) || b@.take(
                j as int,
            ).contains(y)) by {
                if i > i1 {
                    lemma_take_step_contains(a@, i as int, y);
                }
                if j > j1 {
                    lemma_take_step_contains(b@, j as int, y);
                }
                if before.contains(y) {
                    let k = choose|k: int| 0 <= k < before.len() && before[k] == y;
                    assert(out@[k] == y);
                }
                if out@.contains(y) && y != x {
                    let k = choose|k: int| 0 <= k < out@.len() && out@[k] == y;
                    assert(before[k] == y);
                }
            }
        }
        proof {
            assert(i < a@.len() ==> x < a@[i as int]) by {
                if i < a@.len() {
                    if i >= 1 && x == a@[i - 1] {
                        assert(a@[i - 1] < a@[i as int]);
                    }
                }
            }
            assert(j < b@.len() ==> x < b@[j as int]) by {
                if j < b@.len() {
                    if j >= 1 && x == b@[j - 1] {
                        assert(b@[j - 1] < b@[j as int]);
                    }
                }
            }
        }
    }
    let ghost mid = out@;
    let ghost i0 = i;
    let ghost j0 = j;
    while i < a.len()
        invariant
            i0 <= i <= a@.len(),
            j == j0,
            j0 == b@.len() || i0 == a@.len(),
            strictly_sorted(a@),
            strictly_sorted(out@),
            forall|x: u32| out@.contains(x) <==> (a@.take(i as int).contains(x) || b@.take(
                j as int,
            ).contains(x)),
            out@.len() > 0 && i < a@.len() ==> out@.last() < a@[i as int],
            i0 == a@.len() ==> out@ == mid,
            mid.len() > 0 && j0 < b@.len() ==> mid.last() < b@[j0 as int],
        decreases a@.len() - i,
    {
        let ghost before = out@;
        let x = a[i];
        out.push(x);
        i = i + 1;
        proof {
            lemma_push_canonical(before, x);
            assert forall|y: u32| out@.contains(y) <==> (a@.take(i as int).contains(y) || b@.take(
                j as int,
            ).contains(y)) by {
                lemma_take_step_contains(a@, i as int, y);
                if before.contains(y) {
                    let k = choose|k: int| 0 <= k < before.len() && before[k] == y;
                    assert(out@[k] == y);
                }
                if out@.contains(y) && y != x {
                    let k = choose|k: int| 0 <= k < out@.len() && out@[k] == y;
                    assert(before[k] == y);
                }
            }
            if i < a@.len() {
                assert(a@[i - 1] < a@[i as int]);
            }
        }
    }
    while j < b.len()
        invariant
            i == a@.len(),
            j <= b@.len(),
            strictly_sorted(b@),
            strictly_sorted(out@),
            forall|x: u32| out@.contains(x) <==> (a@.take(i as int).contains(x) || b@.take(
                j as int,
            ).contains(x)),
            out@.len() > 0 && j < b@.len() ==> out@.last() < b@[j as int],
        decreases b@.len() - j,
    {
        let ghost before = out@;
        let x = b[j];
        out.push(x);
        j = j + 1;
        proof {
            lemma_push_canonical(before, x);
            assert forall|y: u32| out@.contains(y) <==> (a@.take(i as int).contains(y) || b@.take(
                j as int,
            ).contains(y)) by {
                lemma_take_step_contains(b@, j as int, y);
                if before.contains(y) {
                    let k = choose|k: int| 0 <= k < before.len() && before[k] == y;
                    assert(out@[k] == y);
                }
                if out@.contains(y) && y != x {
                    let k = choose|k: int| 0 <= k < out@.len() && out@[k] == y;
                    assert(before[k] == y);
                }
            }
            if j < b@.len() {
                assert(b@[j - 1] < b@[j as int]);
            }
        }
    }
    proof {
        assert(a@.take(a@.len() as int) =~= a@);
        assert(b@.take(b@.len() as int) =~= b@);
        let u = union_of(a@, b@);
        assert(strictly_sorted(u) && forall|x: u32| u.contains(x) <==> (a@.contains(x) || b@.contains(x)));
        lemma_canonical_unique(out@, u);
    }
    out
}

proof fn lemma_push_canonical(s: Seq<u32>, x: u32)
    requires
        strictly_sorted(s),
        s.len() > 0 ==> s.last() < x,
    ensures
        strictly_sorted(s.push(x)),
        s.push(x).contains(x),
{
    assert(s.push(x)[s.len() as int] == x);
    assert forall|i: int, j: int| 0 <= i < j < s.push(x).len() implies s.push(x)[i] < s.push(
        x,
    )[j] by {
        if j == s.len() && i < s.len() - 1 {
            assert(s[i] < s[s.len() - 1]);
        }
    }
}

proof fn lemma_take_step_contains<A>(s: Seq<A>, n: int, y: A)
    requires
        1 <= n <= s.len(),
    ensures
        s.take(n).contains(y) <==> (s.take(n - 1).contains(y) || s[n - 1] == y),
{
    assert(s.take(n) =~= s.take(n - 1).push(s[n - 1]));
    let u = s.take(n);
    if u.contains(y) && s[n - 1] != y {
        let k = choose|k: int| 0 <= k < u.len() && u[k] == y;
        assert(s.take(n - 1)[k] == y);
    }
    let t = s.take(n - 1);
    if t.contains(y) {
        let k = choose|k: int| 0 <= k < t.len() && t[k] == y;
        assert(s.take(n)[k] == y);
    }
    if s[n - 1] == y {
        assert(s.take(n)[n - 1] == y);
    }
}

proof fn lemma_insert_env_sorted(s: Seq<Seq<u32>>, p: int, x: Seq<u32>)
    requires
        env_sorted(s),
        0 <= p <= s.len(),
        forall|q: int| 0 <= q < p ==> env_less(#[trigger] s[q], x),
        p < s.len() ==> env_less(x, s[p]),
    ensures
        env_sorted(s.insert(p, x)),
{
    let t = s.insert(p, x);
    assert forall|i: int, j: int| 0 <= i < j < t.len() implies env_less(t[i], t[j]) by {
        if j == p {
            assert(t[i] == s[i]);
        } else if i == p {
            assert(t[j] == s[j - 1]);
            if j - 1 > p {
                assert(env_less(s[p], s[j - 1]));
                lemma_env_trans(x, s[p], s[j - 1]);
            }
        } else if i < p && j > p {
            assert(t[i] == s[i] && t[j] == s[j - 1]);
        } else if j < p {
            assert(t[i] == s[i] && t[j] == s[j]);
        } else {
            assert(t[i] == s[i - 1] && t[j] == s[j - 1]);
        }
    }
}

/// `envs` sorted into the environment order, each environment once.
fn sort_envs(envs: &Vec<Env>) -> (d: Vec<Env>)
    ensures
        env_sorted(views(d@)),
        forall|e: Seq<u32>| views(d@).contains(e) <==> views(envs@).contains(e),
{
    let mut out: Vec<Env> = Vec::new();
    let mut n: usize = 0;
    while n < envs.len()
        invariant
            n <= envs@.len(),
            env_sorted(views(out@)),
            forall|e: Seq<u32>| views(out@).contains(e) <==> views(envs@).take(n as int).contains(e),
        decreases envs@.len() - n,
    {
        let x = &envs[n];
        let mut p: usize = 0;
        while p < out.len() && env_less_exec(&out[p], x)
            invariant
                p <= out@.len(),
                forall|q: int| 0 <= q < p ==> env_less(#[trigger] views(out@)[q], x@),
            decreases out@.len() - p,
        {
            assert(views(out@)[p as int] == out@[p as int]@);
            p = p + 1;
        }
        let ghost vo = views(out@);
        proof {
            if p < out@.len() {
                assert(vo[p as int] == out@[p as int]@);
            }
        }
        if p < out.len() && !env_less_exec(x, &out[p]) {
            proof {
                if vo[p as int] != x@ {
                    lemma_env_total(vo[p as int], x@);
                }
                assert forall|e: Seq<u32>| views(out@).contains(e) <==> views(envs@).take(
                    n + 1,
                ).contains(e) by {
                    assert(views(envs@)[n as int] == x@);
                    lemma_take_step_contains(views(envs@), n + 1, e);
                    if e == x@ {
                        assert(vo[p as int] == e);
                    }
                }
            }
        } else {
            out.insert(p, copy_env(x));
            proof {
                assert(views(out@) =~= vo.insert(p as int, x@));
                lemma_insert_env_sorted(vo, p as int, x@);
                assert forall|e: Seq<u32>| views(out@).contains(e) <==> views(envs@).take(
                    n + 1,
                ).contains(e) by {
                    assert(views(envs@)[n as int] == x@);
                    lemma_take_step_contains(views(envs@), n + 1, e);
                    let t = vo.insert(p as int, x@);
                    if vo.contains(e) {
                        let k = choose|k: int| 0 <= k < vo.len() && vo[k] == e;
                        if k < p {
                            assert(t[k] == e);
                        } else {
                            assert(t[k + 1] == e);
                        }
                    }
                    if e == x@ {
                        assert(t[p as int] == e);
                    }
                    if t.contains(e) && e != x@ {
                        let k = choose|k: int| 0 <= k < t.len() && t[k] == e;
                        if k < p {
                            assert(vo[k] == e);
                        } else {
                            assert(k != p);
                            assert(vo[k - 1] == e);
                        }
                    }
                }
            }
        }
        n = n + 1;
    }
    proof {
        assert(views(envs@).take(envs@.len() as int) =~= views(envs@));
    }
    out
}


/// An environment-sorted selection from `input` as large as `input`'s set
/// of environments holds all of them.
proof fn lemma_full_cover(input: Seq<Seq<u32>>, out: Seq<Seq<u32>>)
    requires
        env_sorted(out),
        forall|i: int| 0 <= i < out.len() ==> input.contains(#[trigger] out[i]),
        out.len() >= input.to_set().len(),
    ensures
        forall|e: Seq<u32>| input.contains(e) ==> out.contains(e),
{
    lemma_env_sorted_card(out);
    assert(out.to_set().subset_of(input.to_set())) by {
        assert forall|e: Seq<u32>| out.to_set().contains(e) implies input.to_set().contains(e) by {
            let w = choose|w: int| 0 <= w < out.len() && out[w] == e;
        }
    }
    vstd::set_lib::lemma_len_subset(out.to_set(), input.to_set());
    vstd::set_lib::lemma_subset_equality(out.to_set(), input.to_set());
    assert forall|e: Seq<u32>| input.contains(e) implies out.contains(e) by {
        assert(input.to_set().contains(e));
        assert(out.to_set().contains(e));
    }
}

/// Subset-minimal environments, smallest first, capped. Discarding a
/// superset is exact; only the cap loses information, and `cut` reports it.
fn minimise(envs: &Vec<Env>, budget: &ExplanationBudget) -> (r: (Vec<Env>, bool))
    requires
        all_canonical(views(envs@)),
    ensures
        forall|i: int| 0 <= i < r.0@.len() ==> views(envs@).contains(#[trigger] views(r.0@)[i])
            && size_ok(views(r.0@)[i], budget.max_env_size),
        all_canonical(views(r.0@)),
        env_sorted(views(r.0@)),
        antichain(views(r.0@)),
        r.0@.len() <= cap_of(*budget),
        forall|e: Seq<u32>| #![trigger views(envs@).contains(e)]
            views(envs@).contains(e) && size_ok(e, budget.max_env_size) && (r.0@.len() < cap_of(
                *budget,
            ) || !env_less(views(r.0@).last(), e)) ==> covered(e, views(r.0@)),
        r.1 == (r.0@.len() == cap_of(*budget) && r.0@.len() < views(envs@).to_set().len()),
        !r.1 ==> forall|e: Seq<u32>| #![trigger views(envs@).contains(e)]
            views(envs@).contains(e) && size_ok(e, budget.max_env_size) ==> covered(e, views(r.0@)),
{
    let d = sort_envs(envs);
    let ghost vd = views(d@);
    proof {
        assert(vd.to_set() =~= views(envs@).to_set());
        lemma_env_sorted_card(vd);
        assert forall|q: int| 0 <= q < vd.len() implies strictly_sorted(#[trigger] vd[q]) by {
            assert(vd.contains(vd[q]));
            assert(views(envs@).contains(vd[q]));
            let w = choose|w: int| 0 <= w < views(envs@).len() && views(envs@)[w] == vd[q];
        }
    }
    let n = d.len();
    let mut out: Vec<Env> = Vec::new();
    let mut k: usize = 0;
    while k < d.len()
        invariant
            k <= vd.len(),
            vd == views(d@),
            n == d@.len(),
            env_sorted(vd),
            all_canonical(vd),
            vd.to_set().len() == vd.len(),
            vd.to_set() == views(envs@).to_set(),
            forall|e: Seq<u32>| vd.contains(e) <==> views(envs@).contains(e),
            forall|i: int| 0 <= i < out@.len() ==> vd.take(k as int).contains(
                #[trigger] views(out@)[i],
            ) && size_ok(views(out@)[i], budget.max_env_size),
            env_sorted(views(out@)),
            antichain(views(out@)),
            out@.len() < cap_of(*budget),
            forall|q: int| 0 <= q < k && size_ok(#[trigger] vd[q], budget.max_env_size) ==> covered(
                vd[q],
                views(out@),
            ),
        decreases vd.len() - k,
    {
        let e = &d[k];
        assert(vd[k as int] == e@);
        let size_bad = match budget.max_env_size {
            Some(m) => e.len() > m,
            None => false,
        };
        let ghost vo = views(out@);
        proof {
            assert forall|i: int| 0 <= i < vo.len() implies strictly_sorted(#[trigger] vo[i]) by {
                let w = choose|w: int| 0 <= w < vd.take(k as int).len() && vd.take(k as int)[w]
                    == vo[i];
                assert(vd[w] == vo[i]);
            }
        }
        if size_bad {
            proof {
                assert forall|i: int| 0 <= i < out@.len() implies vd.take(k + 1).contains(
                    #[trigger] views(out@)[i],
                ) by {
                    lemma_take_step_contains(vd, k + 1, views(out@)[i]);
                }
            }
            k = k + 1;
            continue;
        }
        let mut hit = false;
        let mut t: usize = 0;
        while t < out.len() && !hit
            invariant
                t <= out@.len(),
                vo == views(out@),
                all_canonical(vo),
                strictly_sorted(e@),
                !hit ==> forall|q: int| 0 <= q < t ==> !subset_of(#[trigger] vo[q], e@),
                hit ==> t >= 1 && subset_of(vo[t - 1], e@),
            decreases out@.len() - t,
        {
            assert(vo[t as int] == out@[t as int]@);
            if is_subset(out[t].as_slice(), e.as_slice()) {
                hit = true;
            }
            t = t + 1;
        }
        if hit {
            proof {
                assert forall|i: int| 0 <= i < out@.len() implies vd.take(k + 1).contains(
                    #[trigger] views(out@)[i],
                ) by {
                    lemma_take_step_contains(vd, k + 1, views(out@)[i]);
                }
                assert(covered(vd[k as int], vo));
            }
            k = k + 1;
            continue;
        }
        out.push(copy_env(e));
        proof {
            let vn = views(out@);
            assert(vn =~= vo.push(e@));
            assert forall|i: int| 0 <= i < vo.len() implies env_less(#[trigger] vo[i], e@) by {
                let w = choose|w: int| 0 <= w < vd.take(k as int).len() && vd.take(k as int)[w]
                    == vo[i];
                assert(vd[w] == vo[i]);
            }
            assert(env_sorted(vn)) by {
                assert forall|i: int, j: int| 0 <= i < j < vn.len() implies env_less(vn[i], vn[j]) by {
                    if j == vo.len() {
                        assert(vn[i] == vo[i]);
                    } else {
                        assert(vn[i] == vo[i] && vn[j] == vo[j]);
                    }
                }
            }
            assert(antichain(vn)) by {
                assert forall|i: int, j: int| 0 <= i < vn.len() && 0 <= j < vn.len() && i != j
                    implies !subset_of(#[trigger] vn[i], #[trigger] vn[j]) by {
                    if j == vo.len() {
                        assert(vn[i] == vo[i]);
                    } else if i == vo.len() {
                        assert(vn[j] == vo[j]);
                        assert(env_less(vo[j], e@));
                        if subset_of(e@, vo[j]) {
                            lemma_subset_len(e@, vo[j]);
                            lemma_env_irrefl(e@);
                        }
                    } else {
                        assert(vn[i] == vo[i] && vn[j] == vo[j]);
                    }
                }
            }
            assert forall|i: int| 0 <= i < out@.len() implies vd.take(k + 1).contains(
                #[trigger] views(out@)[i],
            ) && size_ok(views(out@)[i], budget.max_env_size) by {
                lemma_take_step_contains(vd, k + 1, views(out@)[i]);
                if i < vo.len() {
                    assert(vn[i] == vo[i]);
                }
            }
            assert forall|q: int| 0 <= q < k + 1 && size_ok(#[trigger] vd[q], budget.max_env_size)
                implies covered(vd[q], vn) by {
                if q == k {
                    assert(vn[vo.len() as int] == vd[q]);
                    assert(subset_of(vn[vo.len() as int], vd[q]));
                } else {
                    let w = choose|w: int| 0 <= w < vo.len() && subset_of(#[trigger] vo[w], vd[q]);
                    assert(vn[w] == vo[w]);
                }
            }
        }
        if out.len() >= budget.max_environments {
            let cut = out.len() < n;
            proof {
                let vn = views(out@);
                assert forall|x: Seq<u32>| #![trigger views(envs@).contains(x)]
                    views(envs@).contains(x) && size_ok(x, budget.max_env_size) && (vn.len()
                    < cap_of(*budget) || !env_less(vn.last(), x)) implies covered(x, vn) by {
                    assert(vd.contains(x));
                    let q = choose|q: int| 0 <= q < vd.len() && vd[q] == x;
                    if q > k {
                        assert(env_less(vd[k as int], vd[q]));
                    }
                }
                assert forall|i: int| 0 <= i < out@.len() implies views(envs@).contains(
                    #[trigger] views(out@)[i],
                ) by {
                    let tk = vd.take(k + 1);
                    let w = choose|w: int| 0 <= w < tk.len() && tk[w] == vn[i];
                    assert(vd[w] == vn[i]);
                    assert(vd.contains(vn[i]));
                }
                if !cut {
                    lemma_full_cover(views(envs@), vn);
                    assert forall|x: Seq<u32>| #![trigger views(envs@).contains(x)]
                        views(envs@).contains(x) && size_ok(x, budget.max_env_size) implies covered(x, vn) by {
                        assert(vn.contains(x));
                        let w = choose|w: int| 0 <= w < vn.len() && vn[w] == x;
                        assert(subset_of(vn[w], x));
                    }
                }
            }
            return (out, cut);
        }
        k = k + 1;
    }
    proof {
        let vo = views(out@);
        assert(vd.take(vd.len() as int) =~= vd);
        assert forall|i: int| 0 <= i < out@.len() implies views(envs@).contains(
            #[trigger] views(out@)[i],
        ) by {
            let w = choose|w: int| 0 <= w < vd.take(k as int).len() && vd.take(k as int)[w]
                == vo[i];
            assert(vd[w] == vo[i]);
            assert(vd.contains(vo[i]));
        }
        assert forall|x: Seq<u32>| #![trigger views(envs@).contains(x)]
            views(envs@).contains(x) && size_ok(x, budget.max_env_size) implies covered(x, vo) by {
            assert(vd.contains(x));
            let q = choose|q: int| 0 <= q < vd.len() && vd[q] == x;
        }
        assert forall|i: int| 0 <= i < vo.len() implies strictly_sorted(#[trigger] vo[i]) by {
            let w = choose|w: int| 0 <= w < vd.take(k as int).len() && vd.take(k as int)[w]
                == vo[i];
            assert(vd[w] == vo[i]);
        }
    }
    (out, false)
}

// ── The proof store ──────────────────────────────────────────────────

/// One derivation the store retained for a fact.
#[derive(Clone, Debug)]
pub struct Justification {
    /// A rule firing. Records of the other kinds (source, hypothesis,
    /// rejected) are not walked by the label search.
    pub by_rule: bool,
    /// The facts the firing consumed.
    pub premises: Vec<u32>,
}

/// What the KB holds of one fact.
#[derive(Clone, Debug)]
pub struct Recorded {
    /// A `source` / `hypothesis` / un-provenanced fact: a leaf of every walk.
    pub given: bool,
    /// The retained derivations: the primary first, then the alternatives.
    pub justifications: Vec<Justification>,
}

/// The KB's provenance, indexed by fact id over every interned fact; `None`
/// for an id the KB does not hold.
pub struct ProofStore {
    pub facts: Vec<Option<Recorded>>,
}

/// Every premise names an interned fact, and every id fits a fact id.
pub open spec fn store_wf(st: &ProofStore) -> bool {
    &&& st.facts@.len() <= 0x1_0000_0000
    &&& forall|f: int, k: int, q: int|
        #![trigger st.facts@[f]->Some_0.justifications@[k].premises@[q]]
        0 <= f < st.facts@.len() && st.facts@[f] is Some && 0 <= k
            < st.facts@[f]->Some_0.justifications@.len() && 0 <= q
            < st.facts@[f]->Some_0.justifications@[k].premises@.len()
            ==> st.facts@[f]->Some_0.justifications@[k].premises@[q] < st.facts@.len()
}

/// The record of fact `f`, if the KB holds it.
pub open spec fn record(st: &ProofStore, f: int) -> Option<Recorded> {
    if 0 <= f < st.facts@.len() {
        st.facts@[f]
    } else {
        None
    }
}

/// The premise lists of the rule derivations among the first `k`, in order.
pub open spec fn rule_ands_upto(js: Seq<Justification>, k: nat) -> Seq<Seq<u32>>
    decreases k,
{
    if k == 0 || k > js.len() {
        Seq::empty()
    } else {
        let prev = rule_ands_upto(js, (k - 1) as nat);
        if js[k - 1].by_rule {
            prev.push(js[k - 1].premises@)
        } else {
            prev
        }
    }
}

/// The AND-nodes of a fact: the premise lists of its rule derivations.
pub open spec fn rule_ands(r: Recorded) -> Seq<Seq<u32>> {
    rule_ands_upto(r.justifications@, r.justifications@.len())
}

/// A rule derivation with no premises: a synthetic writeback that every walk
/// grounds out on.
pub open spec fn grounds_out(r: Recorded) -> bool {
    exists|k: int|
        0 <= k < r.justifications@.len() && (#[trigger] r.justifications@[k]).by_rule
            && r.justifications@[k].premises@.len() == 0
}

/// `e` holds the leaves of a derivation of `f` at most `d` rule steps deep:
/// a fact the KB does not hold, a writeback and a fact with no rule
/// derivation ground out; a given fact must be in `e`; any other fact needs
/// one of its rule derivations with every premise derived within `e`.
pub open spec fn derives(st: &ProofStore, f: u32, e: Seq<u32>, d: nat) -> bool
    decreases d, 2nat, 0nat,
{
    match record(st, f as int) {
        None => true,
        Some(r) => if r.given {
            e.contains(f)
        } else if grounds_out(r) || rule_ands(r).len() == 0 {
            true
        } else {
            d > 0 && some_and_derives(st, rule_ands(r), e, (d - 1) as nat)
        },
    }
}

/// One of the AND-nodes `ands` has every premise derived within `e`, at
/// most `d` steps deep.
pub open spec fn some_and_derives(st: &ProofStore, ands: Seq<Seq<u32>>, e: Seq<u32>, d: nat) -> bool
    decreases d + 1, 1nat, ands.len(),
{
    if ands.len() == 0 {
        false
    } else {
        all_derive(st, ands.last(), e, d) || some_and_derives(st, ands.drop_last(), e, d)
    }
}

/// Every fact of `ps` is derived within `e`, at most `d` steps deep.
pub open spec fn all_derive(st: &ProofStore, ps: Seq<u32>, e: Seq<u32>, d: nat) -> bool
    decreases d + 1, 0nat, ps.len(),
{
    if ps.len() == 0 {
        true
    } else {
        derives(st, ps.last(), e, d) && all_derive(st, ps.drop_last(), e, d)
    }
}

/// `e` holds the leaves of some retained derivation of `f`: the joint truth
/// of `e`'s facts forces `f`.
pub open spec fn derivable(st: &ProofStore, f: u32, e: Seq<u32>) -> bool {
    exists|d: nat| derives(st, f, e, d)
}

proof fn lemma_all_derive(st: &ProofStore, ps: Seq<u32>, e: Seq<u32>, d: nat)
    ensures
        all_derive(st, ps, e, d) <==> forall|q: int| 0 <= q < ps.len() ==> #[trigger] derives(
            st,
            ps[q],
            e,
            d,
        ),
    decreases ps.len(),
{
    if ps.len() > 0 {
        let rest = ps.drop_last();
        lemma_all_derive(st, rest, e, d);
        if forall|q: int| 0 <= q < ps.len() ==> #[trigger] derives(st, ps[q], e, d) {
            assert forall|q: int| 0 <= q < rest.len() implies #[trigger] derives(st, rest[q], e, d) by {
                assert(rest[q] == ps[q]);
            }
            assert(derives(st, ps[ps.len() - 1], e, d));
        }
        if all_derive(st, ps, e, d) {
            assert forall|q: int| 0 <= q < ps.len() implies #[trigger] derives(st, ps[q], e, d) by {
                if q < ps.len() - 1 {
                    assert(rest[q] == ps[q]);
                }
            }
        }
    }
}

proof fn lemma_some_and(st: &ProofStore, ands: Seq<Seq<u32>>, e: Seq<u32>, d: nat)
    ensures
        some_and_derives(st, ands, e, d) <==> exists|k: int|
            0 <= k < ands.len() && #[trigger] all_derive(st, ands[k], e, d),
    decreases ands.len(),
{
    if ands.len() > 0 {
        let rest = ands.drop_last();
        lemma_some_and(st, rest, e, d);
        if exists|k: int| 0 <= k < ands.len() && #[trigger] all_derive(st, ands[k], e, d) {
            let k = choose|k: int| 0 <= k < ands.len() && #[trigger] all_derive(st, ands[k], e, d);
            if k < ands.len() - 1 {
                assert(rest[k] == ands[k]);
                assert(all_derive(st, rest[k], e, d));
            }
        }
        if some_and_derives(st, ands, e, d) {
            if all_derive(st, ands.last(), e, d) {
                assert(all_derive(st, ands[ands.len() - 1], e, d));
            } else {
                let k = choose|k: int| 0 <= k < rest.len() && #[trigger] all_derive(st, rest[k], e, d);
                assert(rest[k] == ands[k]);
                assert(all_derive(st, ands[k], e, d));
            }
        }
    }
}

/// The rule step: when every premise of one of `f`'s AND-nodes is derived
/// within `e` at depth `d`, so is `f` at depth `d + 1`.
proof fn lemma_derives_step(st: &ProofStore, f: u32, k: int, e: Seq<u32>, d: nat)
    requires
        record(st, f as int) is Some,
        !record(st, f as int)->Some_0.given,
        !grounds_out(record(st, f as int)->Some_0),
        0 <= k < rule_ands(record(st, f as int)->Some_0).len(),
        forall|q: int|
            0 <= q < rule_ands(record(st, f as int)->Some_0)[k].len() ==> #[trigger] derives(
                st,
                rule_ands(record(st, f as int)->Some_0)[k][q],
                e,
                d,
            ),
    ensures
        derives(st, f, e, d + 1),
{
    let ands = rule_ands(record(st, f as int)->Some_0);
    lemma_all_derive(st, ands[k], e, d);
    lemma_some_and(st, ands, e, d);
}

proof fn lemma_derives_env_mono(st: &ProofStore, f: u32, e: Seq<u32>, e2: Seq<u32>, d: nat)
    requires
        derives(st, f, e, d),
        subset_of(e, e2),
    ensures
        derives(st, f, e2, d),
    decreases d,
{
    if let Some(r) = record(st, f as int) {
        if !r.given && !(grounds_out(r) || rule_ands(r).len() == 0) {
            let ands = rule_ands(r);
            lemma_some_and(st, ands, e, (d - 1) as nat);
            let k = choose|k: int| 0 <= k < ands.len() && #[trigger] all_derive(st, ands[k], e, (d - 1) as nat);
            lemma_all_derive(st, ands[k], e, (d - 1) as nat);
            assert forall|q: int| 0 <= q < ands[k].len() implies #[trigger] derives(
                st,
                ands[k][q],
                e2,
                (d - 1) as nat,
            ) by {
                lemma_derives_env_mono(st, ands[k][q], e, e2, (d - 1) as nat);
            }
            lemma_derives_step(st, f, k, e2, (d - 1) as nat);
        }
    }
}

proof fn lemma_derives_depth_mono(st: &ProofStore, f: u32, e: Seq<u32>, d: nat, d2: nat)
    requires
        derives(st, f, e, d),
        d <= d2,
    ensures
        derives(st, f, e, d2),
    decreases d,
{
    if let Some(r) = record(st, f as int) {
        if !r.given && !(grounds_out(r) || rule_ands(r).len() == 0) {
            let ands = rule_ands(r);
            lemma_some_and(st, ands, e, (d - 1) as nat);
            let k = choose|k: int| 0 <= k < ands.len() && #[trigger] all_derive(st, ands[k], e, (d - 1) as nat);
            lemma_all_derive(st, ands[k], e, (d - 1) as nat);
            assert forall|q: int| 0 <= q < ands[k].len() implies #[trigger] derives(
                st,
                ands[k][q],
                e,
                (d2 - 1) as nat,
            ) by {
                lemma_derives_depth_mono(st, ands[k][q], e, (d - 1) as nat, (d2 - 1) as nat);
            }
            lemma_derives_step(st, f, k, e, (d2 - 1) as nat);
        }
    }
}

/// Premises each derivable within `e` are derivable at one common depth.
proof fn lemma_common_depth(st: &ProofStore, ps: Seq<u32>, e: Seq<u32>) -> (dd: nat)
    requires
        forall|q: int| 0 <= q < ps.len() ==> derivable(st, #[trigger] ps[q], e),
    ensures
        forall|q: int| 0 <= q < ps.len() ==> derives(st, #[trigger] ps[q], e, dd),
    decreases ps.len(),
{
    if ps.len() == 0 {
        0
    } else {
        let rest = ps.drop_last();
        assert forall|q: int| 0 <= q < rest.len() implies derivable(st, #[trigger] rest[q], e) by {
            assert(rest[q] == ps[q]);
        }
        let d0 = lemma_common_depth(st, rest, e);
        let last = ps[ps.len() - 1];
        assert(derivable(st, last, e));
        let d1 = choose|d1: nat| derives(st, last, e, d1);
        let dd = if d0 < d1 {
            d1
        } else {
            d0
        };
        assert forall|q: int| 0 <= q < ps.len() implies derives(st, #[trigger] ps[q], e, dd) by {
            if q < ps.len() - 1 {
                assert(rest[q] == ps[q]);
                lemma_derives_depth_mono(st, ps[q], e, d0, dd);
            } else {
                lemma_derives_depth_mono(st, ps[q], e, d1, dd);
            }
        }
        dd
    }
}

// ── The AND/OR graph ─────────────────────────────────────────────────

/// A fact whose label is fixed: one the KB does not hold, a given fact, a
/// writeback, or one with no rule derivation.
pub open spec fn terminal(st: &ProofStore, f: int) -> bool {
    match record(st, f) {
        None => true,
        Some(r) => r.given || grounds_out(r) || rule_ands(r).len() == 0,
    }
}

/// A terminal's label: `{{f}}` for a given fact, `{∅}` for the others.
pub open spec fn seed_label(st: &ProofStore, f: int) -> Seq<Seq<u32>> {
    if record(st, f) is Some && record(st, f)->Some_0.given {
        seq![seq![f as u32]]
    } else {
        seq![Seq::<u32>::empty()]
    }
}

/// Each rule AND-node of a held fact is the premise list of one of its
/// justifications.
proof fn lemma_rule_ands_from(js: Seq<Justification>, k: nat, i: int)
    requires
        k <= js.len(),
        0 <= i < rule_ands_upto(js, k).len(),
    ensures
        exists|j: int| 0 <= j < k && js[j].by_rule && #[trigger] js[j].premises@ == rule_ands_upto(js, k)[i],
    decreases k,
{
    if k > 0 {
        let prev = rule_ands_upto(js, (k - 1) as nat);
        if js[k - 1].by_rule && i == prev.len() {
            assert(js[k - 1].premises@ == rule_ands_upto(js, k)[i]);
        } else {
            lemma_rule_ands_from(js, (k - 1) as nat, i);
            let j = choose|j: int| 0 <= j < k - 1 && js[j].by_rule && #[trigger] js[j].premises@ == prev[i];
            assert(js[j].premises@ == rule_ands_upto(js, k)[i]);
        }
    }
}

proof fn lemma_rule_ands_in_range(st: &ProofStore, f: int, k: int, q: int)
    requires
        store_wf(st),
        record(st, f) is Some,
        0 <= k < rule_ands(record(st, f)->Some_0).len(),
        0 <= q < rule_ands(record(st, f)->Some_0)[k].len(),
    ensures
        rule_ands(record(st, f)->Some_0)[k][q] < st.facts@.len(),
{
    let r = record(st, f)->Some_0;
    lemma_rule_ands_from(r.justifications@, r.justifications@.len(), k);
    let j = choose|j: int| 0 <= j < r.justifications@.len() && r.justifications@[j].by_rule
        && #[trigger] r.justifications@[j].premises@ == rule_ands(r)[k];
    assert(st.facts@[f]->Some_0.justifications@[j].premises@[q] < st.facts@.len());
}

proof fn lemma_seed_sound(st: &ProofStore, f: int)
    requires
        0 <= f < st.facts@.len(),
        st.facts@.len() <= 0x1_0000_0000,
        terminal(st, f),
    ensures
        forall|i: int| 0 <= i < seed_label(st, f).len() ==> strictly_sorted(#[trigger] seed_label(st, f)[i])
            && derives(st, f as u32, seed_label(st, f)[i], 0),
{
    let sl = seed_label(st, f);
    assert(sl.len() == 1);
    assert((f as u32) as int == f);
    if record(st, f) is Some && record(st, f)->Some_0.given {
        assert(sl[0] == seq![f as u32]);
        assert(sl[0][0] == f as u32);
        assert(sl[0].contains(f as u32));
    }
}

/// A node of the graph: not reached yet, an OR-node over its AND-nodes (empty
/// while it waits on the stack), or a terminal with its fixed label.
enum Node {
    Unseen,
    Open(Vec<Vec<u32>>),
    Seed(Vec<Env>),
}


/// Every premise of a reached OR-node's AND-nodes is reached.
spec fn expanded(nodes: Seq<Node>) -> bool {
    forall|f: int, k: int, q: int|
        0 <= f < nodes.len() && 0 <= k < ands_of(nodes[f]).len() && 0 <= q < ands_of(nodes[f])[k].len()
            ==> (#[trigger] ands_of(nodes[f])[k][q]) < nodes.len() && !(nodes[ands_of(nodes[f])[k][q] as int] is Unseen)
}

/// Every OR-node still waiting for its AND-nodes, `skip` aside, is on the
/// stack.
spec fn pending_on(nodes: Seq<Node>, stack: Seq<u32>, skip: int) -> bool {
    forall|f: int| 0 <= f < nodes.len() && f != skip && #[trigger] nodes[f] is Open && ands_of(nodes[f]).len() == 0
        ==> stack.contains(f as u32)
}

proof fn lemma_expanded_update(nodes0: Seq<Node>, nodes1: Seq<Node>, i: int, nd: Node)
    requires
        expanded(nodes0),
        0 <= i < nodes0.len(),
        nodes1 == nodes0.update(i, nd),
        !(nd is Unseen),
        forall|k: int, q: int| 0 <= k < ands_of(nd).len() && 0 <= q < ands_of(nd)[k].len()
            ==> (#[trigger] ands_of(nd)[k][q]) < nodes0.len() && !(nodes1[ands_of(nd)[k][q] as int] is Unseen),
    ensures
        expanded(nodes1),
{
    assert forall|f: int, k: int, q: int|
        0 <= f < nodes1.len() && 0 <= k < ands_of(nodes1[f]).len() && 0 <= q < ands_of(nodes1[f])[k].len()
            implies (#[trigger] ands_of(nodes1[f])[k][q]) < nodes1.len() && !(nodes1[ands_of(nodes1[f])[k][q] as int] is Unseen) by {
        if f != i {
            assert(nodes1[f] == nodes0[f]);
            let p = ands_of(nodes0[f])[k][q] as int;
            assert(!(nodes0[p] is Unseen));
            if p != i {
                assert(nodes1[p] == nodes0[p]);
            }
        }
    }
}

proof fn lemma_pending_set(nodes0: Seq<Node>, nodes1: Seq<Node>, stack: Seq<u32>, i: int, nd: Node)
    requires
        pending_on(nodes0, stack, i),
        0 <= i < nodes0.len(),
        nodes1 == nodes0.update(i, nd),
        !(nd is Open && ands_of(nd).len() == 0),
    ensures
        pending_on(nodes1, stack, -1),
{
    assert forall|f: int| 0 <= f < nodes1.len() && f != -1 && #[trigger] nodes1[f] is Open && ands_of(nodes1[f]).len() == 0
        implies stack.contains(f as u32) by {
        assert(f != i);
        assert(nodes1[f] == nodes0[f]);
    }
}

/// The premise closure of a set of targets, by fact id.
struct Graph {
    nodes: Vec<Node>,
    /// `p → the facts whose AND-nodes name p`: the propagation edges.
    consumers: Vec<Vec<u32>>,
    /// How many nodes were reached.
    size: usize,
    /// The closure outgrew `max_facts` and was cut short.
    truncated: bool,
}

spec fn node_ok(st: &ProofStore, f: int, nd: Node) -> bool {
    match nd {
        Node::Unseen => true,
        Node::Seed(envs) => terminal(st, f) && views(envs@) == seed_label(st, f),
        Node::Open(ands) => ands@.len() > 0 ==> !terminal(st, f) && views(ands@) == rule_ands(
            record(st, f)->Some_0,
        ),
    }
}

spec fn ands_of(nd: Node) -> Seq<Seq<u32>> {
    match nd {
        Node::Open(ands) => views(ands@),
        _ => Seq::empty(),
    }
}

spec fn nodes_wf(st: &ProofStore, nodes: Seq<Node>, consumers: Seq<Vec<u32>>) -> bool {
    &&& nodes.len() == st.facts@.len()
    &&& consumers.len() == st.facts@.len()
    &&& forall|f: int| 0 <= f < nodes.len() ==> node_ok(st, f, #[trigger] nodes[f])
    &&& forall|p: int, i: int| 0 <= p < consumers.len() && 0 <= i < consumers[p]@.len() ==> #[trigger] consumers[p]@[i] < st.facts@.len()
    &&& forall|f: int, k: int, q: int|
        0 <= f < nodes.len() && 0 <= k < ands_of(nodes[f]).len() && 0 <= q < ands_of(nodes[f])[k].len()
            ==> #[trigger] ands_of(nodes[f])[k][q] < st.facts@.len()
                && consumers[ands_of(nodes[f])[k][q] as int]@.contains(f as u32)
}

spec fn graph_wf(st: &ProofStore, g: &Graph) -> bool {
    &&& store_wf(st)
    &&& nodes_wf(st, g.nodes@, g.consumers@)
}

spec fn seen_count(s: Seq<Node>) -> nat
    decreases s.len(),
{
    if s.len() == 0 {
        0
    } else {
        seen_count(s.drop_last()) + if s.last() is Unseen {
            0nat
        } else {
            1nat
        }
    }
}

proof fn lemma_seen_count_bound(s: Seq<Node>, i: int)
    ensures
        seen_count(s) <= s.len(),
        0 <= i < s.len() && s[i] is Unseen ==> seen_count(s) < s.len(),
    decreases s.len(),
{
    if s.len() > 0 {
        lemma_seen_count_bound(s.drop_last(), i);
    }
}

proof fn lemma_seen_count_update(s: Seq<Node>, i: int, v: Node)
    requires
        0 <= i < s.len(),
    ensures
        seen_count(s.update(i, v)) + (if s[i] is Unseen {
            0nat
        } else {
            1nat
        }) == seen_count(s) + (if v is Unseen {
            0nat
        } else {
            1nat
        }),
    decreases s.len(),
{
    let t = s.update(i, v);
    if i == s.len() - 1 {
        assert(t.drop_last() =~= s.drop_last());
    } else {
        assert(t.drop_last() =~= s.drop_last().update(i, v));
        lemma_seen_count_update(s.drop_last(), i, v);
    }
}

fn is_unseen(nd: &Node) -> (r: bool)
    ensures
        r == (*nd is Unseen),
{
    match nd {
        Node::Unseen => true,
        _ => false,
    }
}

fn one_env(e: Env) -> (r: Vec<Env>)
    ensures
        views(r@) == seq![e@],
{
    let mut r: Vec<Env> = Vec::new();
    r.push(e);
    assert(views(r@) =~= seq![e@]);
    r
}

/// The rule AND-nodes of `rec`, or `None` when a writeback grounds it out.
fn rule_premises(rec: &Recorded) -> (r: Option<Vec<Vec<u32>>>)
    ensures
        r is None <==> grounds_out(*rec),
        r is Some ==> views(r->Some_0@) == rule_ands(*rec),
{
    let ghost js = rec.justifications@;
    let mut ands: Vec<Vec<u32>> = Vec::new();
    let mut k: usize = 0;
    while k < rec.justifications.len()
        invariant
            k <= js.len(),
            js == rec.justifications@,
            views(ands@) == rule_ands_upto(js, k as nat),
            forall|j: int| 0 <= j < k ==> !(#[trigger] js[j].by_rule && js[j].premises@.len() == 0),
        decreases js.len() - k,
    {
        let j = &rec.justifications[k];
        if j.by_rule {
            if j.premises.len() == 0 {
                assert(js[k as int].by_rule && js[k as int].premises@.len() == 0);
                return None;
            }
            let ghost before = views(ands@);
            ands.push(copy_env(&j.premises));
            assert(views(ands@) =~= before.push(js[k as int].premises@));
        }
        k = k + 1;
    }
    proof {
        assert(!grounds_out(*rec)) by {
            if grounds_out(*rec) {
                let j = choose|j: int| 0 <= j < js.len() && (#[trigger] js[j]).by_rule && js[j].premises@.len() == 0;
                assert(!(js[j].by_rule && js[j].premises@.len() == 0));
            }
        }
    }
    Some(ands)
}

/// Fact `p` is a premise of one of non-terminal `f`'s rule derivations: an
/// edge the premise closure follows.
pub open spec fn premise_of(st: &ProofStore, f: int, p: u32) -> bool {
    &&& !terminal(st, f)
    &&& exists|k: int, q: int|
        0 <= k < rule_ands(record(st, f)->Some_0).len() && 0 <= q < rule_ands(record(st, f)->Some_0)[k].len()
            && #[trigger] rule_ands(record(st, f)->Some_0)[k][q] == p
}

/// `path` walks premise edges from a target.
pub open spec fn premise_path(st: &ProofStore, targets: Seq<u32>, path: Seq<u32>) -> bool {
    &&& path.len() > 0
    &&& targets.contains(path[0])
    &&& forall|i: int| 0 <= i < path.len() - 1 ==> premise_of(st, #[trigger] path[i] as int, path[i + 1])
}

/// `f` is in the premise closure of `targets`.
pub open spec fn reaches(st: &ProofStore, targets: Seq<u32>, f: u32) -> bool {
    exists|path: Seq<u32>| #[trigger] premise_path(st, targets, path) && path.last() == f
}

/// How many of the facts below `n` the closure holds.
pub open spec fn closure_count(st: &ProofStore, targets: Seq<u32>, n: int) -> nat
    decreases n,
{
    if n <= 0 {
        0
    } else {
        closure_count(st, targets, n - 1) + if reaches(st, targets, (n - 1) as u32) {
            1nat
        } else {
            0nat
        }
    }
}

/// The closure cannot be built within `max_facts` nodes: it holds more,
/// and some fact of it has rule derivations to expand (the size is checked
/// after each expansion).
pub open spec fn cut_short(st: &ProofStore, targets: Seq<u32>, max_facts: usize) -> bool {
    &&& closure_count(st, targets, st.facts@.len() as int) > max_facts
    &&& exists|f: u32| f < st.facts@.len() && #[trigger] reaches(st, targets, f) && !terminal(st, f as int)
}

/// Every reached node is in the closure.
spec fn seen_reach(st: &ProofStore, targets: Seq<u32>, nodes: Seq<Node>) -> bool {
    forall|f: int| 0 <= f < nodes.len() && !(#[trigger] nodes[f] is Unseen) ==> reaches(st, targets, f as u32)
}

/// Some node has been expanded into its AND-nodes.
spec fn some_ands(nodes: Seq<Node>) -> bool {
    exists|f: int| 0 <= f < nodes.len() && (#[trigger] ands_of(nodes[f])).len() > 0
}

proof fn lemma_reach_step(st: &ProofStore, targets: Seq<u32>, g: u32, p: u32)
    requires
        reaches(st, targets, g),
        premise_of(st, g as int, p),
    ensures
        reaches(st, targets, p),
{
    let path = choose|path: Seq<u32>| #[trigger] premise_path(st, targets, path) && path.last() == g;
    let p2 = path.push(p);
    assert forall|i: int| 0 <= i < p2.len() - 1 implies premise_of(st, #[trigger] p2[i] as int, p2[i + 1]) by {
        if i < path.len() - 1 {
            assert(p2[i] == path[i] && p2[i + 1] == path[i + 1]);
        } else {
            assert(p2[i] == g && p2[i + 1] == p);
        }
    }
    assert(p2[0] == path[0]);
    assert(premise_path(st, targets, p2));
}

proof fn lemma_target_reaches(st: &ProofStore, targets: Seq<u32>, t: int)
    requires
        0 <= t < targets.len(),
    ensures
        reaches(st, targets, targets[t]),
{
    assert(targets.contains(targets[t]));
    assert(premise_path(st, targets, seq![targets[t]]));
}

/// A node set that holds the targets, expands every non-terminal node it
/// reaches and leaves no node pending holds the whole closure.
proof fn lemma_closed_holds_closure(st: &ProofStore, targets: Seq<u32>, nodes: Seq<Node>, consumers: Seq<Vec<u32>>, path: Seq<u32>)
    requires
        nodes_wf(st, nodes, consumers),
        expanded(nodes),
        forall|q: int| 0 <= q < targets.len() ==> (#[trigger] targets[q]) < nodes.len() && !(nodes[targets[q] as int] is Unseen),
        forall|g: int| 0 <= g < nodes.len() && #[trigger] nodes[g] is Open ==> ands_of(nodes[g]).len() > 0,
        premise_path(st, targets, path),
    ensures
        path.last() < nodes.len() && !(nodes[path.last() as int] is Unseen),
    decreases path.len(),
{
    let f = path.last();
    if path.len() == 1 {
        let q = choose|q: int| 0 <= q < targets.len() && targets[q] == path[0];
    } else {
        let prev = path.drop_last();
        assert forall|i: int| 0 <= i < prev.len() - 1 implies premise_of(st, #[trigger] prev[i] as int, prev[i + 1]) by {
            assert(prev[i] == path[i] && prev[i + 1] == path[i + 1]);
        }
        assert(prev[0] == path[0]);
        lemma_closed_holds_closure(st, targets, nodes, consumers, prev);
        let g = prev.last();
        assert(g == path[path.len() - 2]);
        assert(premise_of(st, path[path.len() - 2] as int, path[path.len() - 1]));
        let gi = g as int;
        assert(node_ok(st, gi, nodes[gi]));
        assert(!(nodes[gi] is Seed));
        assert(nodes[gi] is Open);
        let r = record(st, gi)->Some_0;
        assert(ands_of(nodes[gi]) == rule_ands(r));
        let (k, q) = choose|k: int, q: int|
            0 <= k < rule_ands(r).len() && 0 <= q < rule_ands(r)[k].len() && #[trigger] rule_ands(r)[k][q] == f;
        assert(ands_of(nodes[gi])[k][q] == f);
    }
}

proof fn lemma_count_below(st: &ProofStore, targets: Seq<u32>, nodes: Seq<Node>, n: int)
    requires
        0 <= n <= nodes.len(),
        nodes.len() <= 0x1_0000_0000,
        seen_reach(st, targets, nodes),
    ensures
        seen_count(nodes.take(n)) <= closure_count(st, targets, n),
    decreases n,
{
    if n > 0 {
        lemma_count_below(st, targets, nodes, n - 1);
        assert(nodes.take(n).drop_last() =~= nodes.take(n - 1));
        if !(nodes[n - 1] is Unseen) {
            assert(reaches(st, targets, (n - 1) as u32));
        }
    }
}

proof fn lemma_count_equal(st: &ProofStore, targets: Seq<u32>, nodes: Seq<Node>, n: int)
    requires
        0 <= n <= nodes.len(),
        nodes.len() <= 0x1_0000_0000,
        forall|f: int| 0 <= f < nodes.len() ==> (!(#[trigger] nodes[f] is Unseen) <==> reaches(st, targets, f as u32)),
    ensures
        seen_count(nodes.take(n)) == closure_count(st, targets, n),
    decreases n,
{
    if n > 0 {
        lemma_count_equal(st, targets, nodes, n - 1);
        assert(nodes.take(n).drop_last() =~= nodes.take(n - 1));
        assert(!(nodes[n - 1] is Unseen) <==> reaches(st, targets, (n - 1) as u32));
    }
}

proof fn lemma_some_ands_open(nodes: Seq<Node>, i: int, nd: Node)
    requires
        0 <= i < nodes.len(),
        ands_of(nd).len() == 0,
        some_ands(nodes.update(i, nd)),
    ensures
        some_ands(nodes),
{
    let f = choose|f: int| 0 <= f < nodes.len() && (#[trigger] ands_of(nodes.update(i, nd)[f])).len() > 0;
    assert(f != i);
    assert(ands_of(nodes[f]).len() > 0);
}

proof fn lemma_seen_reach_set(st: &ProofStore, targets: Seq<u32>, nodes: Seq<Node>, i: int, nd: Node)
    requires
        0 <= i < nodes.len(),
        seen_reach(st, targets, nodes),
        reaches(st, targets, i as u32),
    ensures
        seen_reach(st, targets, nodes.update(i, nd)),
{
    assert forall|f: int| 0 <= f < nodes.len() && !(#[trigger] nodes.update(i, nd)[f] is Unseen) implies reaches(st, targets, f as u32) by {
        if f != i {
            assert(nodes.update(i, nd)[f] == nodes[f]);
        }
    }
}

/// The AND/OR premise closure of `targets`, expanded depth-first from the
/// last target, cut short once it holds more than `max_facts` nodes.
#[verifier::spinoff_prover]
#[verifier::rlimit(60)]
fn build_graph(st: &ProofStore, targets: &[u32], budget: &ExplanationBudget) -> (g: Graph)
    requires
        store_wf(st),
        forall|t: int| 0 <= t < targets@.len() ==> (#[trigger] targets@[t]) < st.facts@.len(),
    ensures
        graph_wf(st, &g),
        g.size <= st.facts@.len(),
        forall|t: int| 0 <= t < targets@.len() ==> !(g.nodes@[#[trigger] targets@[t] as int] is Unseen),
        expanded(g.nodes@),
        !g.truncated ==> forall|f: int| 0 <= f < g.nodes@.len() && #[trigger] g.nodes@[f] is Open ==> ands_of(g.nodes@[f]).len() > 0,
        g.truncated == cut_short(st, targets@, budget.max_facts),
        g.truncated ==> g.size > budget.max_facts,
        !g.truncated ==> g.size == closure_count(st, targets@, st.facts@.len() as int),
{
    let n = st.facts.len();
    let mut nodes: Vec<Node> = Vec::new();
    let mut consumers: Vec<Vec<u32>> = Vec::new();
    let mut i: usize = 0;
    while i < n
        invariant
            i <= n,
            n == st.facts@.len(),
            nodes@.len() == i,
            consumers@.len() == i,
            forall|f: int| 0 <= f < i ==> #[trigger] nodes@[f] is Unseen,
            forall|f: int| 0 <= f < i ==> #[trigger] consumers@[f]@.len() == 0,
        decreases n - i,
    {
        nodes.push(Node::Unseen);
        consumers.push(Vec::new());
        i = i + 1;
    }
    proof {
        assert(seen_count(nodes@) == 0) by {
            lemma_seen_count_zero(nodes@);
        }
        assert(expanded(nodes@));
        assert(pending_on(nodes@, Seq::<u32>::empty(), -1));
    }
    let mut size: usize = 0;
    let mut stack: Vec<u32> = Vec::new();
    let mut t: usize = 0;
    while t < targets.len()
        invariant
            t <= targets@.len(),
            n == st.facts@.len(),
            store_wf(st),
            forall|t: int| 0 <= t < targets@.len() ==> (#[trigger] targets@[t]) < st.facts@.len(),
            nodes_wf(st, nodes@, consumers@),
            size == seen_count(nodes@),
            size <= n,
            forall|q: int| 0 <= q < stack@.len() ==> (#[trigger] stack@[q]) < n && !(nodes@[stack@[q] as int] is Unseen),
            forall|q: int| 0 <= q < t ==> !(nodes@[#[trigger] targets@[q] as int] is Unseen),
            expanded(nodes@),
            pending_on(nodes@, stack@, -1),
            seen_reach(st, targets@, nodes@),
            !some_ands(nodes@),
        decreases targets@.len() - t,
    {
        let ti = targets[t] as usize;
        if is_unseen(&nodes[ti]) {
            let nd = Node::Open(Vec::new());
            proof {
                lemma_seen_count_update(nodes@, ti as int, nd);
                lemma_seen_count_bound(nodes@, ti as int);
                lemma_target_reaches(st, targets@, t as int);
                lemma_seen_reach_set(st, targets@, nodes@, ti as int, nd);
                if some_ands(nodes@.update(ti as int, nd)) {
                    lemma_some_ands_open(nodes@, ti as int, nd);
                }
            }
            let ghost before = nodes@;
            nodes[ti] = nd;
            assert(nodes@ == before.update(ti as int, nd));
            let ghost st0 = stack@;
            stack.push(targets[t]);
            size = size + 1;
            proof {
                lemma_nodes_wf_open(st, before, nodes@, consumers@, ti as int, nd);
                lemma_assign_node(before, nodes@, ti as int, nd);
                lemma_expanded_update(before, nodes@, ti as int, nd);
                assert(stack@.last() == targets@[t as int]);
                assert forall|f: int| 0 <= f < nodes@.len() && f != -1 && #[trigger] nodes@[f] is Open && ands_of(nodes@[f]).len() == 0
                    implies stack@.contains(f as u32) by {
                    if f == ti {
                        assert(stack@[stack@.len() - 1] == targets@[t as int]);
                        assert((ti as u32) == targets@[t as int]);
                    } else {
                        assert(nodes@[f] == before[f]);
                        assert(st0.contains(f as u32));
                        let w = choose|w: int| 0 <= w < st0.len() && st0[w] == f as u32;
                        assert(stack@[w] == f as u32);
                    }
                }
            }
        }
        t = t + 1;
    }
    proof {
        assert forall|q: int| 0 <= q < stack@.len() implies reaches(st, targets@, #[trigger] stack@[q]) by {
            assert(!(nodes@[stack@[q] as int] is Unseen));
        }
    }
    let mut truncated = false;
    while !truncated && stack.len() > 0
        invariant
            seen_reach(st, targets@, nodes@),
            !truncated ==> (some_ands(nodes@) ==> size <= budget.max_facts),
            truncated ==> size > budget.max_facts && exists|w: u32|
                w < n && #[trigger] reaches(st, targets@, w) && !terminal(st, w as int),
            n == st.facts@.len(),
            store_wf(st),
            nodes_wf(st, nodes@, consumers@),
            size == seen_count(nodes@),
            size <= n,
            forall|q: int| 0 <= q < stack@.len() ==> (#[trigger] stack@[q]) < n && !(nodes@[stack@[q] as int] is Unseen),
            forall|q: int| 0 <= q < targets@.len() ==> !(nodes@[#[trigger] targets@[q] as int] is Unseen),
            forall|t: int| 0 <= t < targets@.len() ==> (#[trigger] targets@[t]) < st.facts@.len(),
            expanded(nodes@),
            pending_on(nodes@, stack@, -1),
        decreases 2 * (n - size) + stack@.len(),
    {
        let ghost stk = stack@;
        let fid = stack.pop().unwrap();
        let fi = fid as usize;
        assert(fi < n);
        proof {
            assert(stk == stack@.push(fid));
            assert forall|f: int| 0 <= f < nodes@.len() && f != fi && #[trigger] nodes@[f] is Open && ands_of(nodes@[f]).len() == 0
                implies stack@.contains(f as u32) by {
                assert(stk.contains(f as u32));
                let w = choose|w: int| 0 <= w < stk.len() && stk[w] == f as u32;
                assert(w != stk.len() - 1);
                assert(stack@[w] == f as u32);
            }
            assert(pending_on(nodes@, stack@, fi as int));
        }
        let ghost nodes0 = nodes@;
        let ghost size0 = size;
        let ghost stack0 = stack@;
        proof {
            assert(stk[stk.len() - 1] == fid);
            assert(!(nodes@[fi as int] is Unseen));
            assert(reaches(st, targets@, fid));
        }
        match &st.facts[fi] {
            None => {
                let seed = one_env(Vec::new());
                proof {
                    assert(views(seed@) =~= seed_label(st, fi as int));
                }
                let nd = Node::Seed(seed);
                proof {
                    lemma_seen_count_update(nodes@, fi as int, nd);
                }
                nodes[fi] = nd;
                proof {
                    lemma_nodes_wf_set(st, nodes0, nodes@, consumers@, fi as int, nd);
                    lemma_assign_node(nodes0, nodes@, fi as int, nd);
                    lemma_expanded_update(nodes0, nodes@, fi as int, nd);
                    lemma_pending_set(nodes0, nodes@, stack@, fi as int, nd);
                    lemma_seen_reach_set(st, targets@, nodes0, fi as int, nd);
                    if some_ands(nodes@) {
                        lemma_some_ands_open(nodes0, fi as int, nd);
                    }
                }
            },
            Some(rec) => {
                if rec.given {
                    let mut e: Vec<u32> = Vec::new();
                    e.push(fid);
                    let seed = one_env(e);
                    proof {
                        assert(views(seed@) =~= seed_label(st, fi as int));
                    }
                    let nd = Node::Seed(seed);
                    proof {
                        lemma_seen_count_update(nodes@, fi as int, nd);
                    }
                    nodes[fi] = nd;
                    proof {
                        lemma_nodes_wf_set(st, nodes0, nodes@, consumers@, fi as int, nd);
                        lemma_assign_node(nodes0, nodes@, fi as int, nd);
                        lemma_expanded_update(nodes0, nodes@, fi as int, nd);
                        lemma_pending_set(nodes0, nodes@, stack@, fi as int, nd);
                    lemma_seen_reach_set(st, targets@, nodes0, fi as int, nd);
                    if some_ands(nodes@) {
                        lemma_some_ands_open(nodes0, fi as int, nd);
                    }
                    }
                } else {
                    match rule_premises(rec) {
                        Some(ands) if ands.len() > 0 => {
                            let ghost r = *rec;
                            proof {
                                assert(record(st, fi as int) == Some(r));
                                assert(!terminal(st, fi as int));
                                assert forall|a: int, w: int| 0 <= a < ands@.len() && 0 <= w < ands@[a]@.len() implies #[trigger] ands@[a]@[w] < n by {
                                    assert(views(ands@)[a] == ands@[a]@);
                                    lemma_rule_ands_in_range(st, fi as int, a, w);
                                }
                            }
                            let mut k: usize = 0;
                            while k < ands.len()
                                invariant
                                    n == st.facts@.len(),
                                    fi < n,
                                    fid as int == fi as int,
                                    store_wf(st),
                                    record(st, fi as int) == Some(r),
                                    views(ands@) == rule_ands(r),
                                    !terminal(st, fi as int),
                                    k <= ands@.len(),
                                    forall|a: int, w: int| 0 <= a < ands@.len() && 0 <= w < ands@[a]@.len() ==> #[trigger] ands@[a]@[w] < n,
                                    nodes_wf(st, nodes@, consumers@),
                                    !(nodes@[fi as int] is Unseen),
                                    size == seen_count(nodes@),
                                    size <= n,
                                    size >= size0,
                                    2 * (n - size) + stack@.len() <= 2 * (n - size0) + stack0.len(),
                                    forall|q: int| 0 <= q < stack@.len() ==> (#[trigger] stack@[q]) < n && !(nodes@[stack@[q] as int] is Unseen),
                                    forall|q: int| 0 <= q < targets@.len() ==> !(nodes@[#[trigger] targets@[q] as int] is Unseen),
                                    forall|t: int| 0 <= t < targets@.len() ==> (#[trigger] targets@[t]) < st.facts@.len(),
                                    forall|a: int, q: int| 0 <= a < k && 0 <= q < ands@[a]@.len() ==> consumers@[#[trigger] ands@[a]@[q] as int]@.contains(fid),
                                    forall|a: int, q: int| 0 <= a < k && 0 <= q < ands@[a]@.len() ==> !(nodes@[#[trigger] ands@[a]@[q] as int] is Unseen),
                                    expanded(nodes@),
                                    pending_on(nodes@, stack@, fi as int),
                                    seen_reach(st, targets@, nodes@),
                                    reaches(st, targets@, fid),
                                    some_ands(nodes@) ==> size0 <= budget.max_facts,
                                decreases ands@.len() - k,
                            {
                                let mut q: usize = 0;
                                while q < ands[k].len()
                                    invariant
                                        n == st.facts@.len(),
                                        fi < n,
                                        fid as int == fi as int,
                                        store_wf(st),
                                        record(st, fi as int) == Some(r),
                                        views(ands@) == rule_ands(r),
                                        !terminal(st, fi as int),
                                        k < ands@.len(),
                                        q <= ands@[k as int]@.len(),
                                        forall|a: int, w: int| 0 <= a < ands@.len() && 0 <= w < ands@[a]@.len() ==> #[trigger] ands@[a]@[w] < n,
                                        nodes_wf(st, nodes@, consumers@),
                                        !(nodes@[fi as int] is Unseen),
                                        size == seen_count(nodes@),
                                        size <= n,
                                        size >= size0,
                                        2 * (n - size) + stack@.len() <= 2 * (n - size0) + stack0.len(),
                                        forall|w: int| 0 <= w < stack@.len() ==> (#[trigger] stack@[w]) < n && !(nodes@[stack@[w] as int] is Unseen),
                                        forall|w: int| 0 <= w < targets@.len() ==> !(nodes@[#[trigger] targets@[w] as int] is Unseen),
                                        forall|t: int| 0 <= t < targets@.len() ==> (#[trigger] targets@[t]) < st.facts@.len(),
                                        forall|a: int, w: int| 0 <= a < k && 0 <= w < ands@[a]@.len() ==> consumers@[#[trigger] ands@[a]@[w] as int]@.contains(fid),
                                        forall|w: int| 0 <= w < q ==> consumers@[#[trigger] ands@[k as int]@[w] as int]@.contains(fid),
                                        forall|a: int, w: int| 0 <= a < k && 0 <= w < ands@[a]@.len() ==> !(nodes@[#[trigger] ands@[a]@[w] as int] is Unseen),
                                        forall|w: int| 0 <= w < q ==> !(nodes@[#[trigger] ands@[k as int]@[w] as int] is Unseen),
                                        expanded(nodes@),
                                        pending_on(nodes@, stack@, fi as int),
                                        seen_reach(st, targets@, nodes@),
                                        reaches(st, targets@, fid),
                                        some_ands(nodes@) ==> size0 <= budget.max_facts,
                                    decreases ands@[k as int]@.len() - q,
                                {
                                    let pid = ands[k][q];
                                    proof {
                                        assert(views(ands@)[k as int] == ands@[k as int]@);
                                        lemma_rule_ands_in_range(st, fi as int, k as int, q as int);
                                    }
                                    let pi = pid as usize;
                                    let ghost cons0 = consumers@;
                                    let ghost nodes1 = nodes@;
                                    consumers[pi].push(fid);
                                    proof {
                                        lemma_nodes_wf_push_consumer(st, nodes@, cons0, consumers@, pi as int, fid);
                                    }
                                    if is_unseen(&nodes[pi]) {
                                        let nd = Node::Open(Vec::new());
                                        proof {
                                            lemma_seen_count_update(nodes@, pi as int, nd);
                                            lemma_seen_count_bound(nodes@, pi as int);
                                            assert(rule_ands(r)[k as int][q as int] == pid);
                                            assert(premise_of(st, fi as int, pid));
                                            lemma_reach_step(st, targets@, fid, pid);
                                            lemma_seen_reach_set(st, targets@, nodes@, pi as int, nd);
                                            if some_ands(nodes@.update(pi as int, nd)) {
                                                lemma_some_ands_open(nodes@, pi as int, nd);
                                            }
                                        }
                                        nodes[pi] = nd;
                                        size = size + 1;
                                        let ghost st1 = stack@;
                                        stack.push(pid);
                                        proof {
                                            assert(nodes@ == nodes1.update(pi as int, nd));
                                            lemma_nodes_wf_open(st, nodes1, nodes@, consumers@, pi as int, nd);
                                            lemma_assign_node(nodes1, nodes@, pi as int, nd);
                                            lemma_expanded_update(nodes1, nodes@, pi as int, nd);
                                            assert forall|f: int| 0 <= f < nodes@.len() && f != fi && #[trigger] nodes@[f] is Open && ands_of(nodes@[f]).len() == 0
                                                implies stack@.contains(f as u32) by {
                                                if f == pi {
                                                    assert(stack@[stack@.len() - 1] == pid);
                                                } else {
                                                    assert(nodes@[f] == nodes1[f]);
                                                    assert(st1.contains(f as u32));
                                                    let w = choose|w: int| 0 <= w < st1.len() && st1[w] == f as u32;
                                                    assert(stack@[w] == f as u32);
                                                }
                                            }
                                            assert(forall|f: int| 0 <= f < nodes@.len() && f != pi ==> nodes@[f] == nodes1[f]);
                                            assert(ands_of(nodes@[pi as int]).len() == 0);
                                        }
                                    }
                                    q = q + 1;
                                }
                                proof {
                                    assert forall|a: int, w: int| 0 <= a < k + 1 && 0 <= w < ands@[a]@.len() implies consumers@[#[trigger] ands@[a]@[w] as int]@.contains(fid) by {
                                        if a == k {
                                            assert(consumers@[ands@[k as int]@[w] as int]@.contains(fid));
                                        }
                                    }
                                    assert forall|a: int, w: int| 0 <= a < k + 1 && 0 <= w < ands@[a]@.len() implies !(nodes@[#[trigger] ands@[a]@[w] as int] is Unseen) by {
                                        if a == k {
                                            assert(!(nodes@[ands@[k as int]@[w] as int] is Unseen));
                                        }
                                    }
                                }
                                k = k + 1;
                            }
                            let nd = Node::Open(ands);
                            proof {
                                lemma_seen_count_update(nodes@, fi as int, nd);
                            }
                            let ghost nodes2 = nodes@;
                            nodes[fi] = nd;
                            proof {
                                assert(nodes@ == nodes2.update(fi as int, nd));
                                assert(ands_of(nd) == views(ands@));
                                assert forall|a: int, w: int| 0 <= a < ands_of(nd).len() && 0 <= w < ands_of(nd)[a].len() implies consumers@[#[trigger] ands_of(nd)[a][w] as int]@.contains(fi as u32) by {
                                    assert(ands_of(nd)[a] == ands@[a]@);
                                    assert(consumers@[ands@[a]@[w] as int]@.contains(fid));
                                }
                                lemma_nodes_wf_set(st, nodes2, nodes@, consumers@, fi as int, nd);
                                lemma_assign_node(nodes2, nodes@, fi as int, nd);
                                assert forall|a: int, w: int| 0 <= a < ands_of(nd).len() && 0 <= w < ands_of(nd)[a].len() implies (#[trigger] ands_of(nd)[a][w]) < nodes2.len() && !(nodes@[ands_of(nd)[a][w] as int] is Unseen) by {
                                    assert(ands_of(nd)[a] == ands@[a]@);
                                    assert(!(nodes2[ands@[a]@[w] as int] is Unseen));
                                }
                                lemma_expanded_update(nodes2, nodes@, fi as int, nd);
                                lemma_pending_set(nodes2, nodes@, stack@, fi as int, nd);
                                lemma_seen_reach_set(st, targets@, nodes2, fi as int, nd);
                            }
                            if size > budget.max_facts {
                                truncated = true;
                                assert(reaches(st, targets@, fid) && !terminal(st, fid as int));
                            }
                        },
                        _ => {
                            let seed = one_env(Vec::new());
                            proof {
                                assert(terminal(st, fi as int));
                                assert(views(seed@) =~= seed_label(st, fi as int));
                            }
                            let nd = Node::Seed(seed);
                            proof {
                                lemma_seen_count_update(nodes@, fi as int, nd);
                            }
                            nodes[fi] = nd;
                            proof {
                                lemma_nodes_wf_set(st, nodes0, nodes@, consumers@, fi as int, nd);
                                lemma_assign_node(nodes0, nodes@, fi as int, nd);
                                lemma_expanded_update(nodes0, nodes@, fi as int, nd);
                                lemma_pending_set(nodes0, nodes@, stack@, fi as int, nd);
                    lemma_seen_reach_set(st, targets@, nodes0, fi as int, nd);
                    if some_ands(nodes@) {
                        lemma_some_ands_open(nodes0, fi as int, nd);
                    }
                            }
                        },
                    }
                }
            },
        }
    }
    proof {
        if !truncated {
            assert forall|f: int| 0 <= f < nodes@.len() && #[trigger] nodes@[f] is Open implies ands_of(nodes@[f]).len() > 0 by {
                if ands_of(nodes@[f]).len() == 0 {
                    assert(stack@.contains(f as u32));
                }
            }
        }
    }
    proof {
        let nn = nodes@;
        assert(nn.take(nn.len() as int) =~= nn);
        if truncated {
            lemma_count_below(st, targets@, nn, nn.len() as int);
        } else {
            assert forall|f: int| 0 <= f < nn.len() implies (!(#[trigger] nn[f] is Unseen) <==> reaches(st, targets@, f as u32)) by {
                if reaches(st, targets@, f as u32) {
                    let path = choose|path: Seq<u32>| #[trigger] premise_path(st, targets@, path) && path.last() == f as u32;
                    lemma_closed_holds_closure(st, targets@, nn, consumers@, path);
                }
            }
            lemma_count_equal(st, targets@, nn, nn.len() as int);
            if cut_short(st, targets@, budget.max_facts) {
                let w = choose|w: u32| w < st.facts@.len() && #[trigger] reaches(st, targets@, w) && !terminal(st, w as int);
                assert(!(nn[w as int] is Unseen));
                assert(node_ok(st, w as int, nn[w as int]));
                assert(nn[w as int] is Open);
                assert(some_ands(nn));
            }
        }
    }
    Graph { nodes, consumers, size, truncated }
}


proof fn lemma_assign_node(before: Seq<Node>, after: Seq<Node>, i: int, v: Node)
    requires
        0 <= i < before.len(),
        after == before.update(i, v),
        !(v is Unseen),
    ensures
        forall|f: int| 0 <= f < before.len() && !(before[f] is Unseen) ==> !(#[trigger] after[f] is Unseen),
        after.len() == before.len(),
{
    assert forall|f: int| 0 <= f < before.len() && !(before[f] is Unseen) implies !(#[trigger] after[f] is Unseen) by {
        if f != i {
            assert(after[f] == before[f]);
        }
    }
}

proof fn lemma_nodes_wf_push_consumer(st: &ProofStore, nodes: Seq<Node>, cons0: Seq<Vec<u32>>, cons1: Seq<Vec<u32>>, pi: int, fid: u32)
    requires
        nodes_wf(st, nodes, cons0),
        0 <= pi < cons0.len(),
        fid < st.facts@.len(),
        cons1.len() == cons0.len(),
        forall|p: int| 0 <= p < cons0.len() && p != pi ==> #[trigger] cons1[p] == cons0[p],
        cons1[pi]@ == cons0[pi]@.push(fid),
    ensures
        nodes_wf(st, nodes, cons1),
        cons1[pi]@.contains(fid),
        forall|p: int, y: u32| 0 <= p < cons0.len() && #[trigger] cons0[p]@.contains(y) ==> cons1[p]@.contains(y),
{
    assert(cons1[pi]@[cons0[pi]@.len() as int] == fid);
    assert forall|p: int, y: u32| 0 <= p < cons0.len() && #[trigger] cons0[p]@.contains(y) implies cons1[p]@.contains(y) by {
        if p == pi {
            let w = choose|w: int| 0 <= w < cons0[p]@.len() && cons0[p]@[w] == y;
            assert(cons1[p]@[w] == y);
        }
    }
    assert forall|p: int, w: int| 0 <= p < cons1.len() && 0 <= w < cons1[p]@.len() implies #[trigger] cons1[p]@[w] < st.facts@.len() by {
        if p == pi && w == cons0[p]@.len() {
        } else {
            assert(cons1[p]@[w] == cons0[p]@[w]);
        }
    }
    assert forall|f: int, k: int, q: int|
        0 <= f < nodes.len() && 0 <= k < ands_of(nodes[f]).len() && 0 <= q < ands_of(nodes[f])[k].len()
            implies #[trigger] ands_of(nodes[f])[k][q] < st.facts@.len() && cons1[ands_of(nodes[f])[k][q] as int]@.contains(f as u32) by {
        assert(cons0[ands_of(nodes[f])[k][q] as int]@.contains(f as u32));
    }
}

proof fn lemma_nodes_wf_open(st: &ProofStore, nodes0: Seq<Node>, nodes1: Seq<Node>, cons: Seq<Vec<u32>>, pi: int, nd: Node)
    requires
        nodes_wf(st, nodes0, cons),
        0 <= pi < nodes0.len(),
        nd is Open,
        nd->Open_0@.len() == 0,
        nodes1 == nodes0.update(pi, nd),
    ensures
        nodes_wf(st, nodes1, cons),
{
    assert(ands_of(nd).len() == 0);
    assert forall|f: int| 0 <= f < nodes1.len() implies node_ok(st, f, #[trigger] nodes1[f]) by {
        if f != pi {
            assert(nodes1[f] == nodes0[f]);
        }
    }
    assert forall|f: int, k: int, q: int|
        0 <= f < nodes1.len() && 0 <= k < ands_of(nodes1[f]).len() && 0 <= q < ands_of(nodes1[f])[k].len()
            implies #[trigger] ands_of(nodes1[f])[k][q] < st.facts@.len() && cons[ands_of(nodes1[f])[k][q] as int]@.contains(f as u32) by {
        assert(f != pi);
        assert(nodes1[f] == nodes0[f]);
    }
}

proof fn lemma_nodes_wf_set(st: &ProofStore, nodes0: Seq<Node>, nodes1: Seq<Node>, cons: Seq<Vec<u32>>, fi: int, nd: Node)
    requires
        nodes_wf(st, nodes0, cons),
        0 <= fi < nodes0.len(),
        node_ok(st, fi, nd),
        nodes1 == nodes0.update(fi, nd),
        forall|k: int, q: int| 0 <= k < ands_of(nd).len() && 0 <= q < ands_of(nd)[k].len()
            ==> #[trigger] ands_of(nd)[k][q] < st.facts@.len() && cons[ands_of(nd)[k][q] as int]@.contains(fi as u32),
    ensures
        nodes_wf(st, nodes1, cons),
{
    assert forall|f: int| 0 <= f < nodes1.len() implies node_ok(st, f, #[trigger] nodes1[f]) by {
        if f != fi {
            assert(nodes1[f] == nodes0[f]);
        }
    }
    assert forall|f: int, k: int, q: int|
        0 <= f < nodes1.len() && 0 <= k < ands_of(nodes1[f]).len() && 0 <= q < ands_of(nodes1[f])[k].len()
            implies #[trigger] ands_of(nodes1[f])[k][q] < st.facts@.len() && cons[ands_of(nodes1[f])[k][q] as int]@.contains(f as u32) by {
        if f != fi {
            assert(nodes1[f] == nodes0[f]);
        } else {
            assert(nodes1[f] == nd);
        }
    }
}

proof fn lemma_seen_count_zero(s: Seq<Node>)
    requires
        forall|f: int| 0 <= f < s.len() ==> #[trigger] s[f] is Unseen,
    ensures
        seen_count(s) == 0,
    decreases s.len(),
{
    if s.len() > 0 {
        lemma_seen_count_zero(s.drop_last());
    }
}

// ── Label propagation ────────────────────────────────────────────────

/// The label fact `f` holds in `labels`, empty when it has none.
pub open spec fn label_of(labels: Seq<Option<Vec<Env>>>, f: int) -> Seq<Seq<u32>> {
    if 0 <= f < labels.len() && labels[f] is Some {
        views(labels[f]->Some_0@)
    } else {
        Seq::empty()
    }
}

/// Every label environment is a canonical set of leaves of a retained
/// derivation of its fact.
pub open spec fn labels_sound(st: &ProofStore, labels: Seq<Option<Vec<Env>>>) -> bool {
    &&& labels.len() == st.facts@.len()
    &&& forall|f: int, i: int|
        0 <= f < labels.len() && 0 <= i < label_of(labels, f).len() ==> strictly_sorted(
            #[trigger] label_of(labels, f)[i],
        ) && derivable(st, f as u32, label_of(labels, f)[i]) && within(label_of(labels, f)[i], leaves(st))
}

/// The given facts the KB holds: what an explanation is made of.
pub open spec fn leaves(st: &ProofStore) -> Set<u32> {
    Set::new(|x: u32| record(st, x as int) is Some && record(st, x as int)->Some_0.given)
}

/// Every fact of `e` is in `s`.
pub open spec fn within(e: Seq<u32>, s: Set<u32>) -> bool {
    forall|x: u32| e.contains(x) ==> s.contains(x)
}

/// `e` covers some label environment of every premise of `and`.
pub open spec fn supported(labels: Seq<Option<Vec<Env>>>, and: Seq<u32>, e: Seq<u32>) -> bool {
    forall|q: int| 0 <= q < and.len() ==> covered(e, label_of(labels, #[trigger] and[q] as int))
}

proof fn lemma_subset_trans(a: Seq<u32>, b: Seq<u32>, c: Seq<u32>)
    requires
        subset_of(a, b),
        subset_of(b, c),
    ensures
        subset_of(a, c),
{
}

/// A supported environment derives every premise of the AND-node.
proof fn lemma_supported_derivable(st: &ProofStore, labels: Seq<Option<Vec<Env>>>, and: Seq<u32>, e: Seq<u32>)
    requires
        labels_sound(st, labels),
        supported(labels, and, e),
        forall|q: int| 0 <= q < and.len() ==> (#[trigger] and[q]) < st.facts@.len(),
    ensures
        forall|q: int| 0 <= q < and.len() ==> derivable(st, #[trigger] and[q], e),
{
    assert forall|q: int| 0 <= q < and.len() implies derivable(st, #[trigger] and[q], e) by {
        let p = and[q] as int;
        assert(covered(e, label_of(labels, p)));
        let i = choose|i: int| 0 <= i < label_of(labels, p).len() && subset_of(#[trigger] label_of(labels, p)[i], e);
        let m = label_of(labels, p)[i];
        let pf = and[q];
        assert((p as u32) == pf);
        assert(derivable(st, pf, m));
        let d = choose|d: nat| derives(st, pf, m, d);
        lemma_derives_env_mono(st, pf, m, e, d);
    }
}


/// The union of `a` and `b` is the canonical set of their members.
pub open spec fn union_ok(a: Seq<u32>, b: Seq<u32>) -> bool {
    strictly_sorted(union_of(a, b)) && forall|x: u32| union_of(a, b).contains(x) <==> (a.contains(x) || b.contains(x))
}

proof fn lemma_supported_prefix(labels: Seq<Option<Vec<Env>>>, and: Seq<u32>, e: Seq<u32>, j: int)
    requires
        supported(labels, and, e),
        0 <= j <= and.len(),
    ensures
        supported(labels, and.take(j), e),
{
    assert forall|q: int| 0 <= q < and.take(j).len() implies covered(e, label_of(labels, #[trigger] and.take(j)[q] as int)) by {
        assert(and.take(j)[q] == and[q]);
    }
}

/// Environments of one AND-node: one environment per premise, unioned,
/// re-minimised and capped after each premise (a beam fold).
fn fold(
    and: &Vec<u32>,
    labels: &Vec<Option<Vec<Env>>>,
    budget: &ExplanationBudget,
    Ghost(lv): Ghost<Set<u32>>,
) -> (r: (Vec<Env>, bool))
    requires
        forall|q: int| 0 <= q < and@.len() ==> (#[trigger] and@[q]) < labels@.len(),
        forall|f: int, i: int| 0 <= f < labels@.len() && 0 <= i < label_of(labels@, f).len() ==> strictly_sorted(
            #[trigger] label_of(labels@, f)[i],
        ) && within(label_of(labels@, f)[i], lv),
    ensures
        all_canonical(views(r.0@)),
        forall|i: int| 0 <= i < r.0@.len() ==> within(#[trigger] views(r.0@)[i], lv),
        !r.1 ==> forall|e: Seq<u32>| strictly_sorted(e) && size_ok(e, budget.max_env_size) && #[trigger] supported(labels@, and@, e)
            ==> covered(e, views(r.0@)),
        forall|i: int| 0 <= i < r.0@.len() ==> size_ok(#[trigger] views(r.0@)[i], budget.max_env_size)
            && supported(labels@, and@, views(r.0@)[i]),
{
    let mut envs: Vec<Env> = one_env(Vec::new());
    let mut truncated = false;
    let mut k: usize = 0;
    proof {
        assert(views(envs@)[0].len() == 0);
        assert(strictly_sorted(views(envs@)[0]));
        assert(size_ok(views(envs@)[0], budget.max_env_size));
        assert(within(views(envs@)[0], lv));
        assert(views(envs@).len() == 1);
        assert(envs@.len() == 1);
        assert forall|i: int| 0 <= i < envs@.len() implies within(#[trigger] views(envs@)[i], lv) && size_ok(views(envs@)[i], budget.max_env_size) by {
            assert(i == 0);
        }
        assert forall|e: Seq<u32>| strictly_sorted(e) && size_ok(e, budget.max_env_size) && #[trigger] supported(labels@, and@.take(0), e)
            implies covered(e, views(envs@)) by {
            assert(subset_of(views(envs@)[0], e));
        }
    }
    while k < and.len()
        invariant
            k <= and@.len(),
            forall|q: int| 0 <= q < and@.len() ==> (#[trigger] and@[q]) < labels@.len(),
            forall|f: int, i: int| 0 <= f < labels@.len() && 0 <= i < label_of(labels@, f).len() ==> strictly_sorted(
                #[trigger] label_of(labels@, f)[i],
            ) && within(label_of(labels@, f)[i], lv),
            all_canonical(views(envs@)),
            forall|i: int| 0 <= i < envs@.len() ==> within(#[trigger] views(envs@)[i], lv),
            forall|i: int| 0 <= i < envs@.len() ==> size_ok(#[trigger] views(envs@)[i], budget.max_env_size)
                && forall|q: int| 0 <= q < k ==> covered(views(envs@)[i], label_of(labels@, #[trigger] and@[q] as int)),
            !truncated ==> forall|e: Seq<u32>| strictly_sorted(e) && size_ok(e, budget.max_env_size) && #[trigger] supported(labels@, and@.take(k as int), e)
                ==> covered(e, views(envs@)),
        decreases and@.len() - k,
    {
        let pi = and[k] as usize;
        let pl: &Vec<Env> = match &labels[pi] {
            None => {
                return (Vec::new(), false);
            },
            Some(pl) => pl,
        };
        if pl.len() == 0 {
            return (Vec::new(), false);
        }
        let ghost lp = label_of(labels@, pi as int);
        assert(lp == views(pl@));
        let mut merged: Vec<Env> = Vec::new();
        let mut a: usize = 0;
        while a < envs.len()
            invariant
                a <= envs@.len(),
                k < and@.len(),
                pi as int == and@[k as int] as int,
                lp == views(pl@),
                lp == label_of(labels@, pi as int),
                forall|i: int| 0 <= i < lp.len() ==> strictly_sorted(#[trigger] lp[i]) && within(lp[i], lv),
                all_canonical(views(envs@)),
                forall|i: int| 0 <= i < envs@.len() ==> within(#[trigger] views(envs@)[i], lv),
                forall|i: int| 0 <= i < envs@.len() ==> forall|q: int| 0 <= q < k ==> covered(#[trigger] views(envs@)[i], label_of(labels@, #[trigger] and@[q] as int)),
                all_canonical(views(merged@)),
                forall|i: int| 0 <= i < merged@.len() ==> within(#[trigger] views(merged@)[i], lv),
                forall|i: int| 0 <= i < merged@.len() ==> forall|q: int| 0 <= q < k + 1 ==> covered(#[trigger] views(merged@)[i], label_of(labels@, #[trigger] and@[q] as int)),
                forall|x: int, y: int| 0 <= x < a && 0 <= y < lp.len() ==> views(merged@).contains(#[trigger] union_of(views(envs@)[x], lp[y]))
                    && union_ok(views(envs@)[x], lp[y]),
            decreases envs@.len() - a,
        {
            let mut b: usize = 0;
            while b < pl.len()
                invariant
                    a < envs@.len(),
                    b <= pl@.len(),
                    k < and@.len(),
                    pi as int == and@[k as int] as int,
                    lp == views(pl@),
                    lp == label_of(labels@, pi as int),
                    forall|i: int| 0 <= i < lp.len() ==> strictly_sorted(#[trigger] lp[i]) && within(lp[i], lv),
                    all_canonical(views(envs@)),
                    forall|i: int| 0 <= i < envs@.len() ==> within(#[trigger] views(envs@)[i], lv),
                    forall|i: int| 0 <= i < envs@.len() ==> forall|q: int| 0 <= q < k ==> covered(#[trigger] views(envs@)[i], label_of(labels@, #[trigger] and@[q] as int)),
                    all_canonical(views(merged@)),
                    forall|i: int| 0 <= i < merged@.len() ==> within(#[trigger] views(merged@)[i], lv),
                    forall|i: int| 0 <= i < merged@.len() ==> forall|q: int| 0 <= q < k + 1 ==> covered(#[trigger] views(merged@)[i], label_of(labels@, #[trigger] and@[q] as int)),
                    forall|x: int, y: int| 0 <= x < a && 0 <= y < lp.len() ==> views(merged@).contains(#[trigger] union_of(views(envs@)[x], lp[y]))
                        && union_ok(views(envs@)[x], lp[y]),
                    forall|y: int| 0 <= y < b ==> views(merged@).contains(#[trigger] union_of(views(envs@)[a as int], lp[y]))
                        && union_ok(views(envs@)[a as int], lp[y]),
                decreases pl@.len() - b,
            {
                assert(views(envs@)[a as int] == envs@[a as int]@);
                assert(lp[b as int] == pl@[b as int]@);
                let u = union(envs[a].as_slice(), pl[b].as_slice());
                let ghost before = views(merged@);
                merged.push(u);
                proof {
                    let vm = views(merged@);
                    assert(vm =~= before.push(u@));
                    let e = views(envs@)[a as int];
                    assert(subset_of(e, u@));
                    assert(subset_of(lp[b as int], u@));
                    assert forall|q: int| 0 <= q < k + 1 implies covered(vm[vm.len() - 1], label_of(labels@, #[trigger] and@[q] as int)) by {
                        if q < k {
                            let lq = label_of(labels@, and@[q] as int);
                            assert(covered(e, lq));
                            let w = choose|w: int| 0 <= w < lq.len() && subset_of(#[trigger] lq[w], e);
                            lemma_subset_trans(lq[w], e, u@);
                        } else {
                            assert(subset_of(lp[b as int], u@));
                        }
                    }
                    assert forall|i: int| 0 <= i < vm.len() implies strictly_sorted(#[trigger] vm[i]) && within(vm[i], lv) by {
                        if i < before.len() {
                            assert(vm[i] == before[i]);
                        } else {
                            assert(within(e, lv));
                            assert(within(lp[b as int], lv));
                        }
                    }
                    assert forall|i: int| 0 <= i < vm.len() implies forall|q: int| 0 <= q < k + 1 ==> covered(#[trigger] vm[i], label_of(labels@, #[trigger] and@[q] as int)) by {
                        if i < before.len() {
                            assert(vm[i] == before[i]);
                        }
                    }
                    assert(vm[vm.len() - 1] == union_of(e, lp[b as int]));
                    assert(union_ok(e, lp[b as int]));
                    assert forall|x: Seq<u32>| before.contains(x) implies vm.contains(x) by {
                        let w = choose|w: int| 0 <= w < before.len() && before[w] == x;
                        assert(vm[w] == x);
                    }
                    assert(vm.contains(union_of(e, lp[b as int])));
                }
                b = b + 1;
            }
            a = a + 1;
        }
        let (next, cut) = minimise(&merged, budget);
        truncated = truncated || cut;
        proof {
            let vm = views(merged@);
            let vn = views(next@);
            assert forall|i: int| 0 <= i < next@.len() implies size_ok(#[trigger] views(next@)[i], budget.max_env_size)
                && forall|q: int| 0 <= q < k + 1 ==> covered(views(next@)[i], label_of(labels@, #[trigger] and@[q] as int)) by {
                assert(vm.contains(vn[i]));
                let w = choose|w: int| 0 <= w < vm.len() && vm[w] == vn[i];
                assert(forall|q: int| 0 <= q < k + 1 ==> covered(#[trigger] vm[w], label_of(labels@, #[trigger] and@[q] as int)));
            }
            assert forall|i: int| 0 <= i < next@.len() implies within(#[trigger] views(next@)[i], lv) by {
                assert(vm.contains(vn[i]));
                let w = choose|w: int| 0 <= w < vm.len() && vm[w] == vn[i];
                assert(within(vm[w], lv));
            }
        }
        proof {
            let vm = views(merged@);
            let vn = views(next@);
            let ve = views(envs@);
            if !truncated {
                assert forall|e: Seq<u32>| strictly_sorted(e) && size_ok(e, budget.max_env_size) && #[trigger] supported(labels@, and@.take(k + 1), e)
                    implies covered(e, vn) by {
                    lemma_supported_prefix(labels@, and@.take(k + 1), e, k as int);
                    assert(and@.take(k + 1).take(k as int) =~= and@.take(k as int));
                    assert(covered(e, ve));
                    let x = choose|x: int| 0 <= x < ve.len() && subset_of(#[trigger] ve[x], e);
                    assert(and@.take(k + 1)[k as int] == and@[k as int]);
                    assert(covered(e, lp));
                    let y = choose|y: int| 0 <= y < lp.len() && subset_of(#[trigger] lp[y], e);
                    let u = union_of(ve[x], lp[y]);
                    assert(vm.contains(u) && union_ok(ve[x], lp[y]));
                    assert(subset_of(u, e));
                    lemma_subset_len(u, e);
                    assert(size_ok(u, budget.max_env_size));
                    assert(covered(u, vn));
                    let z = choose|z: int| 0 <= z < vn.len() && subset_of(#[trigger] vn[z], u);
                    lemma_subset_trans(vn[z], u, e);
                }
            }
        }
        envs = next;
        if envs.len() == 0 {
            proof {
                if !truncated {
                    assert forall|e: Seq<u32>| strictly_sorted(e) && size_ok(e, budget.max_env_size) && #[trigger] supported(labels@, and@, e)
                        implies covered(e, views(envs@)) by {
                        lemma_supported_prefix(labels@, and@, e, k + 1);
                    }
                }
            }
            return (Vec::new(), truncated);
        }
        k = k + 1;
    }
    proof {
        assert(and@.take(and@.len() as int) =~= and@);
        assert forall|i: int| 0 <= i < envs@.len() implies supported(labels@, and@, #[trigger] views(envs@)[i]) by {
            assert(forall|q: int| 0 <= q < and@.len() ==> covered(views(envs@)[i], label_of(labels@, #[trigger] and@[q] as int)));
        }
    }
    (envs, truncated)
}

fn falses(n: usize) -> (v: Vec<bool>)
    ensures
        v@.len() == n,
        forall|i: int| 0 <= i < n ==> !(#[trigger] v@[i]),
{
    let mut v: Vec<bool> = Vec::new();
    let mut i: usize = 0;
    while i < n
        invariant
            i <= n,
            v@.len() == i,
            forall|j: int| 0 <= j < i ==> !(#[trigger] v@[j]),
        decreases n - i,
    {
        v.push(false);
        i = i + 1;
    }
    v
}

fn any_set(v: &Vec<bool>) -> (r: bool)
    ensures
        r == exists|i: int| 0 <= i < v@.len() && #[trigger] v@[i],
{
    let mut i: usize = 0;
    while i < v.len()
        invariant
            i <= v@.len(),
            forall|j: int| 0 <= j < i ==> !(#[trigger] v@[j]),
        decreases v@.len() - i,
    {
        if v[i] {
            return true;
        }
        i = i + 1;
    }
    false
}

fn env_eq(a: &Vec<u32>, b: &Vec<u32>) -> (r: bool)
    ensures
        r == (a@ == b@),
{
    if a.len() != b.len() {
        return false;
    }
    let mut i: usize = 0;
    while i < a.len()
        invariant
            i <= a@.len(),
            a@.len() == b@.len(),
            forall|j: int| 0 <= j < i ==> a@[j] == b@[j],
        decreases a@.len() - i,
    {
        if a[i] != b[i] {
            return false;
        }
        i = i + 1;
    }
    assert(a@ =~= b@);
    true
}

/// Do two labels hold the same environments in the same order?
fn envs_equal(v: &Vec<Env>, new: &Vec<Env>) -> (r: bool)
    ensures
        r == (views(v@) == views(new@)),
{
    if v.len() != new.len() {
        assert(views(v@).len() != views(new@).len());
        return false;
    }
    let mut i: usize = 0;
    while i < v.len()
        invariant
            i <= v@.len(),
            v@.len() == new@.len(),
            forall|j: int| 0 <= j < i ==> #[trigger] views(v@)[j] == views(new@)[j],
        decreases v@.len() - i,
    {
        assert(views(v@)[i as int] == v@[i as int]@);
        assert(views(new@)[i as int] == new@[i as int]@);
        if !env_eq(&v[i], &new[i]) {
            assert(views(v@)[i as int] != views(new@)[i as int]);
            return false;
        }
        i = i + 1;
    }
    assert(views(v@) =~= views(new@));
    true
}

fn copy_envs(v: &Vec<Env>) -> (r: Vec<Env>)
    ensures
        views(r@) == views(v@),
{
    let mut r: Vec<Env> = Vec::new();
    let mut i: usize = 0;
    while i < v.len()
        invariant
            i <= v@.len(),
            views(r@) == views(v@).take(i as int),
        decreases v@.len() - i,
    {
        let ghost before = views(r@);
        r.push(copy_env(&v[i]));
        assert(views(r@) =~= before.push(v@[i as int]@));
        assert(views(v@).take(i + 1) =~= views(v@).take(i as int).push(v@[i as int]@));
        i = i + 1;
    }
    assert(views(v@).take(v@.len() as int) =~= views(v@));
    r
}

/// The labels the terminals start with: their fixed labels.
fn seed_labels(st: &ProofStore, g: &Graph) -> (labels: Vec<Option<Vec<Env>>>)
    requires
        graph_wf(st, g),
    ensures
        labels_sound(st, labels@),
        seeds_fixed(st, g.nodes@, labels@),
        forall|f: int| 0 <= f < labels@.len() && (#[trigger] labels@[f]) is Some ==> g.nodes@[f] is Seed,
        forall|f: int| 0 <= f < labels@.len() ==> env_sorted(#[trigger] label_of(labels@, f)),
{
    let n = g.nodes.len();
    let mut labels: Vec<Option<Vec<Env>>> = Vec::new();
    let mut i: usize = 0;
    while i < n
        invariant
            i <= n,
            n == g.nodes@.len(),
            graph_wf(st, g),
            labels@.len() == i,
            forall|f: int, j: int|
                0 <= f < i && 0 <= j < label_of(labels@, f).len() ==> strictly_sorted(
                    #[trigger] label_of(labels@, f)[j],
                ) && derivable(st, f as u32, label_of(labels@, f)[j]) && within(label_of(labels@, f)[j], leaves(st)),
            forall|f: int| 0 <= f < i && #[trigger] g.nodes@[f] is Seed ==> label_of(labels@, f) == seed_label(st, f),
            forall|f: int| 0 <= f < i && (#[trigger] labels@[f]) is Some ==> g.nodes@[f] is Seed,
            forall|f: int| 0 <= f < i ==> env_sorted(#[trigger] label_of(labels@, f)),
        decreases n - i,
    {
        let ghost before = labels@;
        match &g.nodes[i] {
            Node::Seed(envs) => {
                labels.push(Some(copy_envs(envs)));
                proof {
                    assert(node_ok(st, i as int, g.nodes@[i as int]));
                    lemma_seed_sound(st, i as int);
                    assert(label_of(labels@, i as int) == seed_label(st, i as int));
                    assert forall|j: int| 0 <= j < label_of(labels@, i as int).len() implies derivable(st, i as u32, #[trigger] label_of(labels@, i as int)[j]) && within(label_of(labels@, i as int)[j], leaves(st)) by {
                        assert(derives(st, i as u32, label_of(labels@, i as int)[j], 0));
                        assert forall|x: u32| label_of(labels@, i as int)[j].contains(x) implies leaves(st).contains(x) by {
                            assert(seed_label(st, i as int)[0] == seq![i as u32]);
                            assert(x == i as u32);
                        }
                    }
                }
            },
            _ => {
                labels.push(None);
            },
        }
        proof {
            assert forall|f: int, j: int|
                0 <= f < i + 1 && 0 <= j < label_of(labels@, f).len() implies strictly_sorted(
                    #[trigger] label_of(labels@, f)[j],
                ) && derivable(st, f as u32, label_of(labels@, f)[j]) && within(label_of(labels@, f)[j], leaves(st)) by {
                if f < i {
                    assert(labels@[f] == before[f]);
                    assert(label_of(labels@, f) == label_of(before, f));
                }
            }
            assert forall|f: int| 0 <= f < i + 1 implies (#[trigger] g.nodes@[f] is Seed ==> label_of(labels@, f) == seed_label(st, f))
                && ((labels@[f] is Some) ==> g.nodes@[f] is Seed) && env_sorted(label_of(labels@, f)) by {
                if f < i {
                    assert(labels@[f] == before[f]);
                    assert(label_of(labels@, f) == label_of(before, f));
                } else {
                    assert(node_ok(st, i as int, g.nodes@[i as int]));
                    if g.nodes@[f] is Seed {
                        assert(label_of(labels@, f).len() == 1);
                    }
                }
            }
        }
        i = i + 1;
    }
    labels
}

/// The terminals hold their fixed labels.
spec fn seeds_fixed(st: &ProofStore, nodes: Seq<Node>, labels: Seq<Option<Vec<Env>>>) -> bool {
    forall|f: int| 0 <= f < nodes.len() && #[trigger] nodes[f] is Seed ==> label_of(labels, f) == seed_label(st, f)
}

/// Every environment that covers one label environment of each premise of
/// one of `f`'s AND-nodes covers one of `f`'s own.
spec fn closed(labels: Seq<Option<Vec<Env>>>, ands: Seq<Seq<u32>>, f: int, bound: Option<usize>) -> bool {
    forall|k: int, e: Seq<u32>|
        0 <= k < ands.len() && strictly_sorted(e) && size_ok(e, bound) && #[trigger] supported(labels, ands[k], e)
            ==> covered(e, label_of(labels, f))
}

proof fn lemma_supported_frame(l0: Seq<Option<Vec<Env>>>, l1: Seq<Option<Vec<Env>>>, s: Seq<u32>, e: Seq<u32>, i: int)
    requires
        forall|p: int| p != i ==> #[trigger] label_of(l1, p) == label_of(l0, p),
        forall|q: int| 0 <= q < s.len() ==> #[trigger] s[q] as int != i,
    ensures
        supported(l1, s, e) == supported(l0, s, e),
{
    assert forall|q: int| 0 <= q < s.len() implies label_of(l1, #[trigger] s[q] as int) == label_of(l0, s[q] as int) by {
    }
}

proof fn lemma_closed_frame(
    l0: Seq<Option<Vec<Env>>>,
    l1: Seq<Option<Vec<Env>>>,
    ands: Seq<Seq<u32>>,
    f: int,
    bound: Option<usize>,
    i: int,
)
    requires
        closed(l0, ands, f, bound),
        forall|p: int| p != i ==> #[trigger] label_of(l1, p) == label_of(l0, p),
        label_of(l1, f) == label_of(l0, f),
        forall|k: int, q: int| 0 <= k < ands.len() && 0 <= q < ands[k].len() ==> #[trigger] ands[k][q] as int != i,
    ensures
        closed(l1, ands, f, bound),
{
    assert forall|k: int, e: Seq<u32>|
        0 <= k < ands.len() && strictly_sorted(e) && size_ok(e, bound) && #[trigger] supported(l1, ands[k], e)
            implies covered(e, label_of(l1, f)) by {
        assert forall|q: int| 0 <= q < ands[k].len() implies #[trigger] ands[k][q] as int != i by {
            assert(ands[k][q] as int != i);
        }
        lemma_supported_frame(l0, l1, ands[k], e, i);
    }
}

/// An OR-node's AND-nodes are never empty.
proof fn lemma_ands_nonempty(st: &ProofStore, f: int, k: int)
    requires
        record(st, f) is Some,
        !grounds_out(record(st, f)->Some_0),
        0 <= k < rule_ands(record(st, f)->Some_0).len(),
    ensures
        rule_ands(record(st, f)->Some_0)[k].len() > 0,
{
    let r = record(st, f)->Some_0;
    lemma_rule_ands_from(r.justifications@, r.justifications@.len(), k);
    let j = choose|j: int| 0 <= j < r.justifications@.len() && r.justifications@[j].by_rule
        && #[trigger] r.justifications@[j].premises@ == rule_ands(r)[k];
    if rule_ands(r)[k].len() == 0 {
        assert(r.justifications@[j].premises@.len() == 0);
        assert(grounds_out(r));
    }
}


/// Least-fixpoint label propagation: `(labels, rounds, exhausted)`.
fn propagate(st: &ProofStore, g: &Graph, budget: &ExplanationBudget) -> (r: (Vec<Option<Vec<Env>>>, usize, bool))
    requires
        graph_wf(st, g),
    ensures
        labels_sound(st, r.0@),
        seeds_fixed(st, g.nodes@, r.0@),
        forall|f: int| 0 <= f < r.0@.len() ==> env_sorted(#[trigger] label_of(r.0@, f)),
        r.1 <= budget.max_rounds,
        r.2 ==> !g.truncated,
        r.2 ==> forall|f: int| 0 <= f < g.nodes@.len() ==> closed(r.0@, ands_of(#[trigger] g.nodes@[f]), f, budget.max_env_size),
{
    let n = g.nodes.len();
    let mut labels = seed_labels(st, g);
    let ghost seeded = labels@;
    let mut truncated = g.truncated;
    let mut dirty = falses(n);
    let mut i: usize = 0;
    while i < n
        invariant
            i <= n,
            n == g.nodes@.len(),
            graph_wf(st, g),
            dirty@.len() == n,
            forall|p: int, x: int| 0 <= p < i && #[trigger] g.nodes@[p] is Seed && 0 <= x < g.consumers@[p]@.len()
                ==> dirty@[#[trigger] g.consumers@[p]@[x] as int],
        decreases n - i,
    {
        if let Node::Seed(_) = &g.nodes[i] {
            let mut c: usize = 0;
            while c < g.consumers[i].len()
                invariant
                    i < n,
                    n == g.nodes@.len(),
                    graph_wf(st, g),
                    dirty@.len() == n,
                    g.nodes@[i as int] is Seed,
                    c <= g.consumers@[i as int]@.len(),
                    forall|p: int, x: int| 0 <= p < i && #[trigger] g.nodes@[p] is Seed && 0 <= x < g.consumers@[p]@.len()
                        ==> dirty@[#[trigger] g.consumers@[p]@[x] as int],
                    forall|x: int| 0 <= x < c ==> dirty@[#[trigger] g.consumers@[i as int]@[x] as int],
                decreases g.consumers@[i as int]@.len() - c,
            {
                let cf = g.consumers[i][c] as usize;
                assert(g.consumers@[i as int]@[c as int] < n);
                dirty[cf] = true;
                c = c + 1;
            }
        }
        i = i + 1;
    }
    proof {
        assert forall|f: int| 0 <= f < n && !dirty@[f] implies closed(labels@, ands_of(#[trigger] g.nodes@[f]), f, budget.max_env_size) by {
            let ands = ands_of(g.nodes@[f]);
            assert forall|k: int, e: Seq<u32>|
                0 <= k < ands.len() && strictly_sorted(e) && size_ok(e, budget.max_env_size) && #[trigger] supported(labels@, ands[k], e)
                    implies covered(e, label_of(labels@, f)) by {
                assert(node_ok(st, f, g.nodes@[f]));
                lemma_ands_nonempty(st, f, k);
                let p = ands[k][0] as int;
                assert(covered(e, label_of(labels@, ands[k][0] as int)));
                assert(labels@[p] is Some);
                assert(g.nodes@[p] is Seed);
                assert(g.consumers@[p]@.contains(f as u32));
                let x = choose|x: int| 0 <= x < g.consumers@[p]@.len() && g.consumers@[p]@[x] == f as u32;
                assert(dirty@[g.consumers@[p]@[x] as int]);
            }
        }
    }
    let mut rounds: usize = 0;
    while any_set(&dirty) && rounds < budget.max_rounds
        invariant
            n == g.nodes@.len(),
            graph_wf(st, g),
            labels_sound(st, labels@),
            seeds_fixed(st, g.nodes@, labels@),
            forall|f: int| 0 <= f < labels@.len() ==> env_sorted(#[trigger] label_of(labels@, f)),
            dirty@.len() == n,
            rounds <= budget.max_rounds,
            g.truncated ==> truncated,
            !truncated ==> forall|f: int| 0 <= f < n && !dirty@[f] ==> closed(labels@, ands_of(#[trigger] g.nodes@[f]), f, budget.max_env_size),
        decreases budget.max_rounds - rounds,
    {
        rounds = rounds + 1;
        let wave = dirty;
        dirty = falses(n);
        let mut i: usize = 0;
        while i < n
            invariant
                i <= n,
                n == g.nodes@.len(),
                graph_wf(st, g),
                labels_sound(st, labels@),
                seeds_fixed(st, g.nodes@, labels@),
                forall|f: int| 0 <= f < labels@.len() ==> env_sorted(#[trigger] label_of(labels@, f)),
                dirty@.len() == n,
                wave@.len() == n,
                g.truncated ==> truncated,
                !truncated ==> forall|f: int| 0 <= f < n && !dirty@[f] && !(wave@[f] && f >= i) ==> closed(labels@, ands_of(#[trigger] g.nodes@[f]), f, budget.max_env_size),
            decreases n - i,
        {
            let ghost l0 = labels@;
            let ghost d0 = dirty@;
            let ghost t0 = truncated;
            if wave[i] {
                if let Node::Open(ands) = &g.nodes[i] {
                    if ands.len() > 0 {
                        proof {
                            assert(node_ok(st, i as int, g.nodes@[i as int]));
                            assert(ands_of(g.nodes@[i as int]) == views(ands@));
                        }
                        let mut cands: Vec<Env> = Vec::new();
                        let ghost mut src: Seq<int> = Seq::empty();
                        let mut a: usize = 0;
                        while a < ands.len()
                            invariant
                                a <= ands@.len(),
                                i < n,
                                n == g.nodes@.len(),
                                graph_wf(st, g),
                                labels_sound(st, labels@),
                                labels@ == l0,
                                ands_of(g.nodes@[i as int]) == views(ands@),
                                all_canonical(views(cands@)),
                                forall|c: int| 0 <= c < cands@.len() ==> within(#[trigger] views(cands@)[c], leaves(st))
                                    && size_ok(views(cands@)[c], budget.max_env_size),
                                src.len() == cands@.len(),
                                forall|c: int| 0 <= c < cands@.len() ==> 0 <= #[trigger] src[c] < a && supported(labels@, views(ands@)[src[c]], views(cands@)[c]),
                                t0 ==> truncated,
                                !truncated ==> forall|w: int, e: Seq<u32>| 0 <= w < a && strictly_sorted(e) && size_ok(e, budget.max_env_size)
                                    && #[trigger] supported(labels@, views(ands@)[w], e) ==> covered(e, views(cands@)),
                            decreases ands@.len() - a,
                        {
                            proof {
                                assert forall|q: int| 0 <= q < ands@[a as int]@.len() implies (#[trigger] ands@[a as int]@[q]) < labels@.len() by {
                                    assert(views(ands@)[a as int] == ands@[a as int]@);
                                    assert(ands_of(g.nodes@[i as int])[a as int][q] < st.facts@.len());
                                }
                            }
                            let (envs, cut) = fold(&ands[a], &labels, budget, Ghost(leaves(st)));
                            truncated = truncated || cut;
                            let ghost before = views(cands@);
                            let ghost fresh = views(envs@);
                            let mut envs = envs;
                            cands.append(&mut envs);
                            proof {
                                let vc = views(cands@);
                                assert(vc =~= before + fresh);
                                assert forall|c: int| 0 <= c < vc.len() implies strictly_sorted(#[trigger] vc[c]) && within(vc[c], leaves(st))
                                    && size_ok(vc[c], budget.max_env_size) by {
                                    if c >= before.len() {
                                        assert(vc[c] == fresh[c - before.len()]);
                                    } else {
                                        assert(vc[c] == before[c]);
                                    }
                                }
                                assert(views(ands@)[a as int] == ands@[a as int]@);
                                let src2 = src + Seq::new(fresh.len(), |x: int| a as int);
                                assert forall|c: int| 0 <= c < cands@.len() implies 0 <= #[trigger] src2[c] < a + 1 && supported(labels@, views(ands@)[src2[c]], views(cands@)[c]) by {
                                    if c < before.len() {
                                        assert(vc[c] == before[c]);
                                        assert(src2[c] == src[c]);
                                    } else {
                                        assert(vc[c] == fresh[c - before.len()]);
                                        assert(src2[c] == a);
                                    }
                                }
                                src = src2;
                                if !truncated {
                                    assert forall|x: Seq<u32>| before.contains(x) implies vc.contains(x) by {
                                        let w = choose|w: int| 0 <= w < before.len() && before[w] == x;
                                        assert(vc[w] == x);
                                    }
                                    assert forall|x: Seq<u32>| fresh.contains(x) implies vc.contains(x) by {
                                        let w = choose|w: int| 0 <= w < fresh.len() && fresh[w] == x;
                                        assert(vc[before.len() + w] == x);
                                    }
                                    assert forall|w: int, e: Seq<u32>| 0 <= w < a + 1 && strictly_sorted(e) && size_ok(e, budget.max_env_size)
                                        && #[trigger] supported(labels@, views(ands@)[w], e) implies covered(e, vc) by {
                                        if w < a {
                                            assert(covered(e, before));
                                            let z = choose|z: int| 0 <= z < before.len() && subset_of(#[trigger] before[z], e);
                                            assert(vc.contains(before[z]));
                                            let y = choose|y: int| 0 <= y < vc.len() && vc[y] == before[z];
                                            assert(subset_of(vc[y], e));
                                        } else {
                                            assert(supported(labels@, ands@[a as int]@, e));
                                            assert(covered(e, fresh));
                                            let z = choose|z: int| 0 <= z < fresh.len() && subset_of(#[trigger] fresh[z], e);
                                            assert(vc[before.len() + z] == fresh[z]);
                                            assert(subset_of(vc[before.len() + z], e));
                                        }
                                    }
                                }
                            }
                            a = a + 1;
                        }
                        if cands.len() > 0 {
                            let (new, cut) = minimise(&cands, budget);
                            truncated = truncated || cut;
                            let changed = match &labels[i] {
                                None => true,
                                Some(v) => !envs_equal(v, &new),
                            };
                            proof {
                                if !truncated {
                                    assert forall|w: int, e: Seq<u32>| 0 <= w < views(ands@).len() && strictly_sorted(e) && size_ok(e, budget.max_env_size)
                                        && #[trigger] supported(l0, views(ands@)[w], e) implies covered(e, views(new@)) by {
                                        let vc = views(cands@);
                                        assert(covered(e, vc));
                                        let z = choose|z: int| 0 <= z < vc.len() && subset_of(#[trigger] vc[z], e);
                                        assert(vc.contains(vc[z]));
                                        assert(covered(vc[z], views(new@)));
                                        let y = choose|y: int| 0 <= y < views(new@).len() && subset_of(#[trigger] views(new@)[y], vc[z]);
                                        lemma_subset_trans(views(new@)[y], vc[z], e);
                                    }
                                }
                            }
                            if changed {
                                proof {
                                    lemma_new_label_sound(st, g, l0, i as int, views(ands@), views(cands@), src, views(new@));
                                }
                                labels[i] = Some(new);
                                proof {
                                    assert forall|f: int, j: int|
                                        0 <= f < labels@.len() && 0 <= j < label_of(labels@, f).len() implies strictly_sorted(
                                            #[trigger] label_of(labels@, f)[j],
                                        ) && derivable(st, f as u32, label_of(labels@, f)[j]) && within(label_of(labels@, f)[j], leaves(st)) by {
                                        if f != i {
                                            assert(labels@[f] == l0[f]);
                                            assert(label_of(labels@, f) == label_of(l0, f));
                                        } else {
                                            assert(label_of(labels@, f) == views(new@));
                                        }
                                    }
                                    assert forall|f: int| f != i implies #[trigger] label_of(labels@, f) == label_of(l0, f) by {
                                        if 0 <= f < labels@.len() {
                                            assert(labels@[f] == l0[f]);
                                        }
                                    }
                                    assert forall|f: int| 0 <= f < labels@.len() implies env_sorted(#[trigger] label_of(labels@, f)) by {
                                        if f != i {
                                            assert(label_of(labels@, f) == label_of(l0, f));
                                        }
                                    }
                                    assert forall|f: int| 0 <= f < g.nodes@.len() && #[trigger] g.nodes@[f] is Seed implies label_of(labels@, f) == seed_label(st, f) by {
                                        assert(f != i);
                                        assert(label_of(labels@, f) == label_of(l0, f));
                                    }
                                }
                                let mut c: usize = 0;
                                while c < g.consumers[i].len()
                                    invariant
                                        i < n,
                                        n == g.nodes@.len(),
                                        graph_wf(st, g),
                                        dirty@.len() == n,
                                        c <= g.consumers@[i as int]@.len(),
                                        forall|f: int| 0 <= f < n && d0[f] ==> #[trigger] dirty@[f],
                                        forall|x: int| 0 <= x < c ==> dirty@[#[trigger] g.consumers@[i as int]@[x] as int],
                                        d0.len() == n,
                                    decreases g.consumers@[i as int]@.len() - c,
                                {
                                    let cf = g.consumers[i][c] as usize;
                                    assert(g.consumers@[i as int]@[c as int] < n);
                                    dirty[cf] = true;
                                    c = c + 1;
                                }
                                proof {
                                    if !truncated {
                                        lemma_sweep_step(st, g, l0, labels@, d0, dirty@, wave@, i as int, budget.max_env_size, views(new@));
                                    }
                                }
                            } else {
                                proof {
                                    if !truncated {
                                        assert(label_of(l0, i as int) == views(new@));
                                        assert(closed(l0, ands_of(g.nodes@[i as int]), i as int, budget.max_env_size));
                                    }
                                }
                            }
                        } else {
                            proof {
                                if !truncated {
                                    assert forall|k: int, e: Seq<u32>|
                                        0 <= k < views(ands@).len() && strictly_sorted(e) && size_ok(e, budget.max_env_size)
                                            && #[trigger] supported(l0, views(ands@)[k], e) implies covered(e, label_of(l0, i as int)) by {
                                        assert(covered(e, views(cands@)));
                                    }
                                }
                            }
                        }
                    }
                }
            }
            i = i + 1;
        }
    }
    let exhausted = !(truncated || any_set(&dirty));
    (labels, rounds, exhausted)
}

/// After node `i`'s label changes to `new` and its consumers are marked, every
/// node that is neither dirty nor still waiting in the wave stays closed.
proof fn lemma_sweep_step(
    st: &ProofStore,
    g: &Graph,
    l0: Seq<Option<Vec<Env>>>,
    l1: Seq<Option<Vec<Env>>>,
    d0: Seq<bool>,
    d1: Seq<bool>,
    wave: Seq<bool>,
    i: int,
    bound: Option<usize>,
    new: Seq<Seq<u32>>,
)
    requires
        graph_wf(st, g),
        0 <= i < g.nodes@.len(),
        l0.len() == g.nodes@.len(),
        l1 == l0.update(i, l1[i]),
        label_of(l1, i) == new,
        d0.len() == g.nodes@.len(),
        d1.len() == g.nodes@.len(),
        wave.len() == g.nodes@.len(),
        forall|f: int| 0 <= f < g.nodes@.len() && d0[f] ==> #[trigger] d1[f],
        forall|x: int| 0 <= x < g.consumers@[i]@.len() ==> d1[#[trigger] g.consumers@[i]@[x] as int],
        forall|f: int| 0 <= f < g.nodes@.len() && !d0[f] && !(wave[f] && f >= i) ==> closed(l0, ands_of(#[trigger] g.nodes@[f]), f, bound),
        forall|w: int, e: Seq<u32>| 0 <= w < ands_of(g.nodes@[i]).len() && strictly_sorted(e) && size_ok(e, bound)
            && #[trigger] supported(l0, ands_of(g.nodes@[i])[w], e) ==> covered(e, new),
    ensures
        forall|f: int| 0 <= f < g.nodes@.len() && !d1[f] && !(wave[f] && f >= i + 1) ==> closed(l1, ands_of(#[trigger] g.nodes@[f]), f, bound),
{
    assert forall|p: int| p != i implies #[trigger] label_of(l1, p) == label_of(l0, p) by {
        if 0 <= p < l0.len() {
            assert(l1[p] == l0[p]);
        }
    }
    assert forall|f: int| 0 <= f < g.nodes@.len() && !d1[f] && !(wave[f] && f >= i + 1) implies closed(l1, ands_of(#[trigger] g.nodes@[f]), f, bound) by {
        let ands = ands_of(g.nodes@[f]);
        assert forall|k: int, q: int| 0 <= k < ands.len() && 0 <= q < ands[k].len() implies #[trigger] ands[k][q] as int != i by {
            if ands[k][q] as int == i {
                assert(g.consumers@[i]@.contains(f as u32));
                let x = choose|x: int| 0 <= x < g.consumers@[i]@.len() && g.consumers@[i]@[x] == f as u32;
                assert(d1[g.consumers@[i]@[x] as int]);
            }
        }
        if f != i {
            assert(!d0[f]);
            lemma_closed_frame(l0, l1, ands, f, bound, i);
        } else {
            assert forall|k: int, e: Seq<u32>|
                0 <= k < ands.len() && strictly_sorted(e) && size_ok(e, bound) && #[trigger] supported(l1, ands[k], e)
                    implies covered(e, label_of(l1, f)) by {
                assert forall|q: int| 0 <= q < ands[k].len() implies #[trigger] ands[k][q] as int != i by {
                    assert(ands[k][q] as int != i);
                }
                lemma_supported_frame(l0, l1, ands[k], e, i);
            }
        }
    }
}

/// A minimised candidate set of a fact's AND-nodes is a sound label for it.
proof fn lemma_new_label_sound(
    st: &ProofStore,
    g: &Graph,
    labels: Seq<Option<Vec<Env>>>,
    i: int,
    ands: Seq<Seq<u32>>,
    cands: Seq<Seq<u32>>,
    src: Seq<int>,
    new: Seq<Seq<u32>>,
)
    requires
        graph_wf(st, g),
        labels_sound(st, labels),
        0 <= i < g.nodes@.len(),
        ands.len() > 0,
        ands_of(g.nodes@[i]) == ands,
        all_canonical(cands),
        forall|c: int| 0 <= c < cands.len() ==> within(#[trigger] cands[c], leaves(st)),
        src.len() == cands.len(),
        forall|c: int| 0 <= c < cands.len() ==> 0 <= #[trigger] src[c] < ands.len() && supported(labels, ands[src[c]], cands[c]),
        forall|c: int| 0 <= c < new.len() ==> cands.contains(#[trigger] new[c]),
    ensures
        forall|c: int| 0 <= c < new.len() ==> strictly_sorted(#[trigger] new[c]) && derivable(st, i as u32, new[c]) && within(new[c], leaves(st)),
{
    let nd = g.nodes@[i];
    assert(node_ok(st, i, nd));
    assert(nd is Open);
    let r = record(st, i)->Some_0;
    assert(ands == rule_ands(r));
    assert((i as u32) as int == i);
    assert forall|c: int| 0 <= c < new.len() implies strictly_sorted(#[trigger] new[c]) && derivable(st, i as u32, new[c]) && within(new[c], leaves(st)) by {
        let e = new[c];
        let x = choose|x: int| 0 <= x < cands.len() && cands[x] == e;
        let w = src[x];
        assert(supported(labels, ands[w], cands[x]));
        assert forall|q: int| 0 <= q < ands[w].len() implies (#[trigger] ands[w][q]) < st.facts@.len() by {
            assert(ands_of(nd)[w][q] < st.facts@.len());
        }
        lemma_supported_derivable(st, labels, ands[w], e);
        let dd = lemma_common_depth(st, ands[w], e);
        lemma_derives_step(st, i as u32, w, e, dd);
    }
}

// ── The explanation ──────────────────────────────────────────────────

/// A minimal-cardinality set of given facts that forces the target.
#[derive(Clone, PartialEq, Eq, Debug, Default)]
pub struct Explanation {
    /// The given facts whose joint truth derives the target through some
    /// retained derivation; empty when no target is derivable at all.
    pub frontier: Vec<u32>,
    /// The fact explained: for a contradiction search, the witness that won.
    pub target: Option<u32>,
    /// No cap was hit anywhere.
    pub exhausted: bool,
    pub rounds: usize,
    pub facts_considered: usize,
}

impl Explanation {
    fn empty() -> (e: Explanation)
        ensures
            e.frontier@.len() == 0,
            e.target is None,
            e.exhausted,
            e.rounds == 0,
            e.facts_considered == 0,
    {
        Explanation { frontier: Vec::new(), target: None, exhausted: true, rounds: 0, facts_considered: 0 }
    }

    pub fn len(&self) -> (n: usize)
        ensures
            n == self.frontier@.len(),
    {
        self.frontier.len()
    }

    pub fn is_empty(&self) -> (b: bool)
        ensures
            b == (self.frontier@.len() == 0),
    {
        self.frontier.len() == 0
    }
}

/// A target's recorded-primary frontier, as the store's own walk reports
/// it, and the text it sorts by: its facts' renderings, sorted and joined
/// by spaces.
pub struct PrimaryCore {
    pub core: Vec<u32>,
    pub key: String,
}

/// Core `a` sorts before core `b`: fewer facts, then by key.
pub open spec fn core_less(a_len: nat, a_key: Seq<char>, b_len: nat, b_key: Seq<char>) -> bool {
    a_len < b_len || (a_len == b_len && text_less(a_key, b_key))
}

/// The smallest single-target recorded-primary frontier, the first of equals
/// winning: the answer when the label search cannot run. Sound, being a real
/// derivation's leaves, but order-dependent, so never `exhausted`.
pub fn recorded_fallback(targets: &[u32], cores: &[PrimaryCore], rounds: usize, considered: usize) -> (r: Explanation)
    requires
        forall|t: int| 0 <= t < targets@.len() ==> (#[trigger] targets@[t]) < cores@.len(),
    ensures
        !r.exhausted,
        r.rounds == rounds,
        r.facts_considered == considered,
        r.target is None <==> forall|i: int| 0 <= i < targets@.len() ==> cores@[(#[trigger] targets@[i]) as int].core@.len() == 0,
        r.target is None ==> r.frontier@.len() == 0,
        r.target is Some ==> exists|b: int|
            #![trigger targets@[b]]
            0 <= b < targets@.len() && cores@[targets@[b] as int].core@.len() > 0 && r.target == Some(targets@[b])
                && strictly_sorted(r.frontier@) && (forall|x: u32| r.frontier@.contains(x) <==> cores@[targets@[b] as int].core@.contains(x))
                && (forall|j: int| 0 <= j < targets@.len() && cores@[targets@[j] as int].core@.len() > 0 ==> !core_less(
                    canonical_len(cores@[targets@[j] as int].core@),
                    cores@[targets@[j] as int].key@,
                    r.frontier@.len(),
                    cores@[targets@[b] as int].key@,
                ))
                && (forall|j: int| 0 <= j < b && cores@[targets@[j] as int].core@.len() > 0 ==> core_less(
                    r.frontier@.len(),
                    cores@[targets@[b] as int].key@,
                    canonical_len(cores@[targets@[j] as int].core@),
                    cores@[targets@[j] as int].key@,
                )),
{
    let mut best: Option<(usize, Vec<u32>)> = None;
    let mut i: usize = 0;
    while i < targets.len()
        invariant
            i <= targets@.len(),
            forall|t: int| 0 <= t < targets@.len() ==> (#[trigger] targets@[t]) < cores@.len(),
            best is None <==> forall|j: int| 0 <= j < i ==> cores@[(#[trigger] targets@[j]) as int].core@.len() == 0,
            best is Some ==> {
                let b = best->Some_0.0 as int;
                let f = best->Some_0.1@;
                &&& 0 <= b < i
                &&& cores@[targets@[b] as int].core@.len() > 0
                &&& strictly_sorted(f)
                &&& forall|x: u32| f.contains(x) <==> cores@[targets@[b] as int].core@.contains(x)
                &&& forall|j: int| 0 <= j < i && cores@[targets@[j] as int].core@.len() > 0 ==> !core_less(
                    canonical_len(cores@[(#[trigger] targets@[j]) as int].core@),
                    cores@[targets@[j] as int].key@,
                    f.len(),
                    cores@[targets@[b] as int].key@,
                )
                &&& forall|j: int| 0 <= j < b && cores@[targets@[j] as int].core@.len() > 0 ==> core_less(
                    f.len(),
                    cores@[targets@[b] as int].key@,
                    canonical_len(cores@[(#[trigger] targets@[j]) as int].core@),
                    cores@[targets@[j] as int].key@,
                )
            },
        decreases targets@.len() - i,
    {
        let core = crate::apriori::canonicalise(copy_env(&cores[targets[i] as usize].core));
        let ghost ci = cores@[targets@[i as int] as int];
        proof {
            lemma_canonical_len(ci.core@, core@);
            if ci.core@.len() > 0 {
                assert(ci.core@.contains(ci.core@[0]));
                assert(core@.contains(ci.core@[0]));
            }
            if core@.len() > 0 {
                assert(core@.contains(core@[0]));
                assert(ci.core@.contains(core@[0]));
            }
        }
        let ghost old_best = best;
        if core.len() > 0 {
            let better = match &best {
                None => true,
                Some((b, f)) => core.len() < f.len() || (core.len() == f.len() && str_less(
                    cores[targets[i] as usize].key.as_str(),
                    cores[targets[*b] as usize].key.as_str(),
                )),
            };
            if better {
                proof {
                    let ki = ci.key@;
                    assert forall|j: int| 0 <= j < i + 1 && cores@[targets@[j] as int].core@.len() > 0 implies !core_less(
                        canonical_len(cores@[(#[trigger] targets@[j]) as int].core@),
                        cores@[targets@[j] as int].key@,
                        core@.len(),
                        ki,
                    ) && (j < i ==> core_less(core@.len(), ki, canonical_len(cores@[targets@[j] as int].core@), cores@[targets@[j] as int].key@)) by {
                        if j == i {
                            lemma_core_irrefl(core@.len(), ki);
                        } else {
                            let b = old_best->Some_0.0 as int;
                            let f = old_best->Some_0.1@;
                            lemma_core_order(
                                core@.len(), ki,
                                f.len(), cores@[targets@[b] as int].key@,
                                canonical_len(cores@[targets@[j] as int].core@), cores@[targets@[j] as int].key@,
                            );
                        }
                    }
                }
                best = Some((i, core));
            } else {
                proof {
                    let b = old_best->Some_0.0 as int;
                    let f = old_best->Some_0.1@;
                    assert(!core_less(canonical_len(ci.core@), ci.key@, f.len(), cores@[targets@[b] as int].key@));
                    assert forall|j: int| 0 <= j < i + 1 && cores@[targets@[j] as int].core@.len() > 0 implies !core_less(
                        canonical_len(cores@[(#[trigger] targets@[j]) as int].core@),
                        cores@[targets@[j] as int].key@,
                        f.len(),
                        cores@[targets@[b] as int].key@,
                    ) by {
                    }
                }
            }
        } else {
            proof {
                if old_best is Some {
                    let b = old_best->Some_0.0 as int;
                    let f = old_best->Some_0.1@;
                    assert forall|j: int| 0 <= j < i + 1 && cores@[targets@[j] as int].core@.len() > 0 implies !core_less(
                        canonical_len(cores@[(#[trigger] targets@[j]) as int].core@),
                        cores@[targets@[j] as int].key@,
                        f.len(),
                        cores@[targets@[b] as int].key@,
                    ) by {
                    }
                }
            }
        }
        proof {
            assert(best is None <==> forall|j: int| 0 <= j < i + 1 ==> cores@[(#[trigger] targets@[j]) as int].core@.len() == 0) by {
                if best is None {
                    assert forall|j: int| 0 <= j < i + 1 implies cores@[(#[trigger] targets@[j]) as int].core@.len() == 0 by {
                    }
                } else {
                    let b = best->Some_0.0 as int;
                    assert(cores@[targets@[b] as int].core@.len() > 0);
                }
            }
        }
        i = i + 1;
    }
    match best {
        None => Explanation { frontier: Vec::new(), target: None, exhausted: false, rounds, facts_considered: considered },
        Some((b, f)) => Explanation { frontier: f, target: Some(targets[b]), exhausted: false, rounds, facts_considered: considered },
    }
}


proof fn lemma_core_irrefl(l: nat, k: Seq<char>)
    ensures
        !core_less(l, k, l, k),
{
    lemma_text_irrefl(k);
}

/// `a` before `b`, and `c` not before `b`: then `a` is before `c`, and `c`
/// not before `a`.
proof fn lemma_core_order(al: nat, ak: Seq<char>, bl: nat, bk: Seq<char>, cl: nat, ck: Seq<char>)
    requires
        core_less(al, ak, bl, bk),
        !core_less(cl, ck, bl, bk),
    ensures
        core_less(al, ak, cl, ck),
        !core_less(cl, ck, al, ak),
{
    if bl == cl && bk != ck {
        lemma_text_total(bk, ck);
    }
    if al == bl && bl == cl && bk != ck {
        lemma_text_trans(ak, bk, ck);
    }
    if al == cl && core_less(cl, ck, al, ak) {
        lemma_text_trans(ak, ck, ak);
        lemma_text_irrefl(ak);
    }
}



/// In a fully expanded graph whose labels are closed, a label covers every
/// size-bounded leaf set of a derivation of its fact.
proof fn lemma_cover(
    st: &ProofStore,
    g: &Graph,
    labels: Seq<Option<Vec<Env>>>,
    bound: Option<usize>,
    f: u32,
    e: Seq<u32>,
    d: nat,
)
    requires
        graph_wf(st, g),
        expanded(g.nodes@),
        forall|x: int| 0 <= x < g.nodes@.len() && #[trigger] g.nodes@[x] is Open ==> ands_of(g.nodes@[x]).len() > 0,
        seeds_fixed(st, g.nodes@, labels),
        forall|x: int| 0 <= x < g.nodes@.len() ==> closed(labels, ands_of(#[trigger] g.nodes@[x]), x, bound),
        f < g.nodes@.len(),
        !(g.nodes@[f as int] is Unseen),
        strictly_sorted(e),
        size_ok(e, bound),
        derives(st, f, e, d),
    ensures
        covered(e, label_of(labels, f as int)),
    decreases d,
{
    let fi = f as int;
    let nd = g.nodes@[fi];
    assert(node_ok(st, fi, nd));
    assert((fi as u32) == f);
    if nd is Seed {
        let sl = seed_label(st, fi);
        assert(label_of(labels, fi) == sl);
        if record(st, fi) is Some && record(st, fi)->Some_0.given {
            assert(sl[0] == seq![f]);
            assert(e.contains(f));
            assert(subset_of(sl[0], e));
        } else {
            assert(sl[0].len() == 0);
            assert(subset_of(sl[0], e));
        }
    } else {
        let ands = ands_of(nd);
        assert(ands.len() > 0);
        let r = record(st, fi)->Some_0;
        assert(ands == rule_ands(r));
        lemma_some_and(st, ands, e, (d - 1) as nat);
        let k = choose|k: int| 0 <= k < ands.len() && #[trigger] all_derive(st, ands[k], e, (d - 1) as nat);
        lemma_all_derive(st, ands[k], e, (d - 1) as nat);
        assert forall|q: int| 0 <= q < ands[k].len() implies covered(e, label_of(labels, #[trigger] ands[k][q] as int)) by {
            let p = ands[k][q];
            assert(derives(st, p, e, (d - 1) as nat));
            lemma_cover(st, g, labels, bound, p, e, (d - 1) as nat);
        }
        assert(supported(labels, ands[k], e));
        assert(closed(labels, ands, fi, bound));
    }
}

/// The answer came from the recorded-primary fallback: target `targets[b]`,
/// frontier the facts of its core.
pub open spec fn from_core(targets: Seq<u32>, cores: Seq<PrimaryCore>, r: Explanation) -> bool {
    &&& !r.exhausted
    &&& exists|b: int|
        #![trigger targets[b]]
        0 <= b < targets.len() && targets[b] < cores.len() && r.target == Some(targets[b]) && forall|x: u32|
            r.frontier@.contains(x) <==> cores[targets[b] as int].core@.contains(x)
}

/// What [`explain`] answers for `targets`: nothing for no targets; a target
/// it names; a frontier of given facts that derives that target — or, only
/// when the premise closure outgrew `max_facts` and no target got a label,
/// the recorded-primary frontier of a target (none when every target's core
/// is empty); how many facts it considered (the whole closure, unless cut
/// short); and, when no cap was hit, a frontier no larger than any
/// size-admissible leaf set of any derivation of any target. A search cut
/// short is never exhausted.
pub open spec fn explains(
    st: &ProofStore,
    targets: Seq<u32>,
    budget: ExplanationBudget,
    cores: Seq<PrimaryCore>,
    r: Explanation,
) -> bool {
    &&& targets.len() == 0 ==> r.frontier@.len() == 0 && r.target is None && r.exhausted && r.rounds == 0
        && r.facts_considered == 0
    &&& r.rounds <= budget.max_rounds
    &&& r.facts_considered <= st.facts@.len()
    &&& r.target is None ==> r.frontier@.len() == 0
    &&& r.target is Some ==> targets.contains(r.target->Some_0)
    &&& r.target is Some ==> (strictly_sorted(r.frontier@) && within(r.frontier@, leaves(st)) && derivable(
        st,
        r.target->Some_0,
        r.frontier@,
    )) || (from_core(targets, cores, r) && cut_short(st, targets, budget.max_facts))
    &&& targets.len() > 0 && !cut_short(st, targets, budget.max_facts) ==> r.facts_considered == closure_count(
        st,
        targets,
        st.facts@.len() as int,
    )
    &&& cut_short(st, targets, budget.max_facts) ==> !r.exhausted && r.facts_considered > budget.max_facts
    &&& cut_short(st, targets, budget.max_facts) && r.target is None ==> forall|i: int|
        0 <= i < targets.len() ==> cores[(#[trigger] targets[i]) as int].core@.len() == 0
    &&& r.exhausted ==> forall|t: u32, e: Seq<u32>|
        #![trigger targets.contains(t), derivable(st, t, e)]
        targets.contains(t) && strictly_sorted(e) && size_ok(e, budget.max_env_size) && derivable(st, t, e)
            ==> r.target is Some && r.frontier@.len() <= e.len()
}

/// The smallest retained-derivation frontier that forces *some* target.
///
/// Each target is explained on its own and the smallest explanation wins,
/// ties broken by content order. When the premise closure outgrows
/// `max_facts` before any target gets a label, the answer degrades to the
/// recorded-primary frontier `cores` holds for each fact.
pub fn explain(st: &ProofStore, targets: &[u32], budget: &ExplanationBudget, cores: &[PrimaryCore]) -> (r: Explanation)
    requires
        store_wf(st),
        forall|t: int| 0 <= t < targets@.len() ==> (#[trigger] targets@[t]) < st.facts@.len(),
        cores@.len() == st.facts@.len(),
    ensures
        explains(st, targets@, *budget, cores@, r),
{
    if targets.len() == 0 {
        return Explanation::empty();
    }
    let g = build_graph(st, targets, budget);
    let (labels, rounds, exhausted) = propagate(st, &g, budget);
    let mut best: Option<(u32, Env)> = None;
    let mut i: usize = 0;
    while i < targets.len()
        invariant
            i <= targets@.len(),
            forall|t: int| 0 <= t < targets@.len() ==> (#[trigger] targets@[t]) < st.facts@.len(),
            labels_sound(st, labels@),
            best is Some ==> {
                let t = best->Some_0.0;
                let e = best->Some_0.1@;
                &&& targets@.contains(t)
                &&& strictly_sorted(e)
                &&& derivable(st, t, e)
                &&& within(e, leaves(st))
            },
            forall|j: int| 0 <= j < i && label_of(labels@, #[trigger] targets@[j] as int).len() > 0 ==> best is Some
                && best->Some_0.1@.len() <= label_of(labels@, targets@[j] as int)[0].len(),
        decreases targets@.len() - i,
    {
        let t = targets[i];
        let ti = t as usize;
        let ghost b0 = best;
        if let Some(label) = &labels[ti] {
            if label.len() > 0 {
                proof {
                    assert(label_of(labels@, ti as int) == views(label@));
                    assert(views(label@)[0] == label@[0]@);
                    assert(label_of(labels@, ti as int)[0] == label@[0]@);
                    assert((ti as u32) == t);
                }
                let env = copy_env(&label[0]);
                let take = match &best {
                    None => true,
                    Some((bt, be)) => env_less_exec(&env, be) || (env_eq(&env, be) && t < *bt),
                };
                if take {
                    proof {
                        assert(targets@[i as int] == t);
                    }
                    best = Some((t, env));
                }
                proof {
                    assert(best is Some);
                    assert(best->Some_0.1@.len() <= env@.len());
                    if b0 is Some {
                        assert(best->Some_0.1@.len() <= b0->Some_0.1@.len());
                    }
                }
            }
        }
        proof {
            assert forall|j: int| 0 <= j < i + 1 && label_of(labels@, #[trigger] targets@[j] as int).len() > 0 implies best is Some
                && best->Some_0.1@.len() <= label_of(labels@, targets@[j] as int)[0].len() by {
                if j == i {
                    assert(labels@[ti as int] is Some);
                }
            }
        }
        i = i + 1;
    }
    proof {
        if exhausted {
            assert forall|tt: u32, e: Seq<u32>|
                #![trigger targets@.contains(tt), derivable(st, tt, e)]
                targets@.contains(tt) && strictly_sorted(e) && size_ok(e, budget.max_env_size) && derivable(st, tt, e)
                    implies best is Some && best->Some_0.1@.len() <= e.len() by {
                let j = choose|j: int| 0 <= j < targets@.len() && targets@[j] == tt;
                let d = choose|d: nat| derives(st, tt, e, d);
                assert(!(g.nodes@[targets@[j] as int] is Unseen));
                lemma_cover(st, &g, labels@, budget.max_env_size, tt, e, d);
                let lt = label_of(labels@, tt as int);
                let w = choose|w: int| 0 <= w < lt.len() && subset_of(#[trigger] lt[w], e);
                lemma_subset_len(lt[w], e);
                if w > 0 {
                    assert(env_less(lt[0], lt[w]));
                }
                assert(label_of(labels@, targets@[j] as int).len() > 0);
            }
        }
    }
    let considered = g.size;
    match best {
        None => {
            if g.truncated {
                recorded_fallback(targets, cores, rounds, considered)
            } else {
                Explanation { frontier: Vec::new(), target: None, exhausted, rounds, facts_considered: considered }
            }
        },
        Some((t, env)) => {
            let mut frontier: Vec<u32> = Vec::new();
            let mut k: usize = 0;
            while k < env.len()
                invariant
                    k <= env@.len(),
                    within(env@, leaves(st)),
                    frontier@ == env@.take(k as int),
                decreases env@.len() - k,
            {
                let f = env[k];
                proof {
                    assert(env@.contains(f));
                    assert(leaves(st).contains(f));
                }
                if st.facts[f as usize].is_some() {
                    frontier.push(f);
                }
                assert(env@.take(k + 1) =~= env@.take(k as int).push(f));
                k = k + 1;
            }
            assert(env@.take(env@.len() as int) =~= env@);
            Explanation { frontier, target: Some(t), exhausted, rounds, facts_considered: considered }
        },
    }
}


/// The facts whose derivations seed the search for each contradiction.
pub open spec fn witnesses_of(found: Seq<Contradiction>) -> Seq<u32> {
    found.map_values(|c: Contradiction| c.witness_of())
}

/// The budget [`ExplanationBudget::default`] gives.
pub open spec fn default_budget() -> ExplanationBudget {
    ExplanationBudget { max_environments: 64, max_rounds: 64, max_env_size: None, max_facts: 20_000 }
}

/// The smallest explanation of any contradiction in the KB: of `witnesses`
/// when given, else of the witness of every contradiction [`detect`] finds.
/// A consistent KB yields an empty explanation.
pub fn minimal_contradiction_frontier(
    st: &ProofStore,
    kb: &FactBase,
    witnesses: Option<&[u32]>,
    budget: &ExplanationBudget,
    cores: &[PrimaryCore],
) -> (r: Explanation)
    requires
        store_wf(st),
        kb.wf(),
        kb.shapes@.len() == st.facts@.len(),
        cores@.len() == st.facts@.len(),
        witnesses matches Some(w) ==> forall|t: int| 0 <= t < w@.len() ==> (#[trigger] w@[t]) < st.facts@.len(),
    ensures
        explains(
            st,
            match witnesses {
                Some(w) => w@,
                None => witnesses_of(kb.detected()),
            },
            *budget,
            cores@,
            r,
        ),
{
    match witnesses {
        Some(w) => explain(st, w, budget, cores),
        None => {
            let found = detect(kb);
            let mut w: Vec<u32> = Vec::new();
            let mut i: usize = 0;
            while i < found.len()
                invariant
                    kb.wf(),
                    found@ == kb.detected(),
                    i <= found@.len(),
                    w@ == witnesses_of(found@.take(i as int)),
                    forall|t: int| 0 <= t < w@.len() ==> (#[trigger] w@[t]) < st.facts@.len(),
                    kb.shapes@.len() == st.facts@.len(),
                decreases found@.len() - i,
            {
                proof {
                    lemma_detected_in_range(kb, i as int);
                }
                w.push(found[i].witness());
                assert(found@.take(i + 1) =~= found@.take(i as int).push(found@[i as int]));
                assert(w@ =~= witnesses_of(found@.take(i + 1)));
                i = i + 1;
            }
            assert(found@.take(found@.len() as int) =~= found@);
            explain(st, &w, budget, cores)
        },
    }
}

/// Every contradiction's witness is an interned fact.
pub(crate) proof fn lemma_detected_in_range(kb: &FactBase, i: int)
    requires
        kb.wf(),
        0 <= i < kb.detected().len(),
    ensures
        kb.detected()[i].witness_of() < kb.shapes@.len(),
{
    let nf = kb.falses@.len();
    if i < nf {
        assert(kb.detected()[i].negative == kb.falses@[i]);
    } else {
        lemma_pairs_in_range(kb, kb.negations@.len(), i - nf);
    }
}

proof fn lemma_pairs_in_range(kb: &FactBase, k: nat, j: int)
    requires
        kb.wf(),
        k <= kb.negations@.len(),
        0 <= j < kb.pairs_upto(k).len(),
    ensures
        kb.pairs_upto(k)[j].witness_of() < kb.shapes@.len(),
    decreases k,
{
    if k > 0 {
        let prev = kb.pairs_upto((k - 1) as nat);
        if j < prev.len() {
            lemma_pairs_in_range(kb, (k - 1) as nat, j);
        } else {
            let n = kb.negations@[k - 1];
            assert(n < kb.shapes@.len());
            assert(kb.shapes@[n as int] is Not);
        }
    }
}

/// The smallest given-fact frontier that forces a contradiction, under the
/// default budget: a real derivation's leaves, never a re-saturated guess.
pub fn smallest_contradiction_frontier(
    st: &ProofStore,
    kb: &FactBase,
    witnesses: Option<&[u32]>,
    cores: &[PrimaryCore],
) -> (f: Vec<u32>)
    requires
        store_wf(st),
        kb.wf(),
        kb.shapes@.len() == st.facts@.len(),
        cores@.len() == st.facts@.len(),
        witnesses matches Some(w) ==> forall|t: int| 0 <= t < w@.len() ==> (#[trigger] w@[t]) < st.facts@.len(),
    ensures
        exists|r: Explanation|
            explains(
                st,
                match witnesses {
                    Some(w) => w@,
                    None => witnesses_of(kb.detected()),
                },
                default_budget(),
                cores@,
                r,
            ) && f@ == r.frontier@,
{
    let budget = ExplanationBudget::default();
    let r = minimal_contradiction_frontier(st, kb, witnesses, &budget, cores);
    r.frontier
}

/// How many distinct facts a core names.
pub open spec fn canonical_len(core: Seq<u32>) -> nat {
    core.to_set().len()
}

proof fn lemma_canonical_len(core: Seq<u32>, c: Seq<u32>)
    requires
        strictly_sorted(c),
        forall|x: u32| c.contains(x) <==> core.contains(x),
    ensures
        c.len() == canonical_len(core),
{
    lemma_canonical_card(c);
    assert(c.to_set() =~= core.to_set());
}

} // verus!
