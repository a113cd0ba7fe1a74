//! The commitment primitive — fork, write, detect, saturate, detect — as
//! far as it decides: how an entering ended, what its unsat core is, and
//! where a dying fork's saturation may stop.
//!
//! Stopping a dying fork at the firing that kills it is sound because the
//! knowledge base is append-only: a contradiction is created by an
//! insertion and never retracted, so a fork inconsistent at one firing is
//! inconsistent at the fixpoint too.
use vstd::prelude::*;

use crate::contradiction::{contradicts, detect, FactBase, Shape};
use crate::facts::{unique_rows, Arg, FactTable};
use crate::firing::{grown, Firing};
use crate::mirror::{holds_in, kb_ok};
use crate::saturator::{derived_fact, fixed, logged, rules_ok, saturate, Rule, SaturateError};
use crate::explain::{
    default_budget, explains, smallest_contradiction_frontier, store_wf, witnesses_of, Explanation, PrimaryCore,
    ProofStore,
};

verus! {

/// How a commitment ended.
#[derive(Clone, Copy, PartialEq, Eq, Debug)]
pub enum Kind {
    Alive,
    /// Contradictory as soon as the hypotheses were written — no saturation
    /// ran.
    DeadPre,
    DeadPost,
}

impl Kind {
    pub open spec fn name(self) -> Seq<char> {
        match self {
            Kind::Alive => seq!['a', 'l', 'i', 'v', 'e'],
            Kind::DeadPre => seq!['d', 'e', 'a', 'd', '-', 'p', 'r', 'e'],
            Kind::DeadPost => seq!['d', 'e', 'a', 'd', '-', 'p', 'o', 's', 't'],
        }
    }

    pub fn as_str(self) -> (s: &'static str)
        ensures
            s@ == self.name(),
    {
        match self {
            Kind::Alive => {
                proof {
                    reveal_strlit("alive");
                }
                "alive"
            },
            Kind::DeadPre => {
                proof {
                    reveal_strlit("dead-pre");
                }
                "dead-pre"
            },
            Kind::DeadPost => {
                proof {
                    reveal_strlit("dead-post");
                }
                "dead-post"
            },
        }
    }
}

/// The smallest source frontier of the KB's contradictions — the unsat
/// core of a dead entering — or `None` when the KB is consistent.
pub fn dead(st: &ProofStore, kb: &FactBase, cores: &[PrimaryCore]) -> (r: Option<Vec<u32>>)
    requires
        store_wf(st),
        kb.wf(),
        kb.shapes@.len() == st.facts@.len(),
        cores@.len() == st.facts@.len(),
    ensures
        r is None <==> kb.detected().len() == 0,
        r matches Some(f) ==> exists|e: Explanation|
            explains(st, witnesses_of(kb.detected()), default_budget(), cores@, e) && f@ == e.frontier@,
{
    let found = detect(kb);
    if found.len() == 0 {
        return None;
    }
    let mut w: Vec<u32> = Vec::new();
    let mut i: usize = 0;
    while i < found.len()
        invariant
            kb.wf(),
            found@ == kb.detected(),
            i <= found@.len(),
            w@ == witnesses_of(found@.take(i as int)),
            forall|t: int| 0 <= t < w@.len() ==> (#[trigger] w@[t]) < st.facts@.len(),
            kb.shapes@.len() == st.facts@.len(),
        decreases found@.len() - i,
    {
        proof {
            crate::explain::lemma_detected_in_range(kb, i as int);
        }
        w.push(found[i].witness());
        assert(found@.take(i + 1) =~= found@.take(i as int).push(found@[i as int]));
        assert(w@ =~= witnesses_of(found@.take(i + 1)));
        i = i + 1;
    }
    assert(found@.take(found@.len() as int) =~= found@);
    Some(smallest_contradiction_frontier(st, kb, Some(w.as_slice()), cores))
}

/// The fail-fast test after one firing: the fork dies here when the firing
/// wrote something — a redundant one wrote nothing, so the KB cannot have
/// changed — and one of its conclusions, now held, makes the KB
/// inconsistent.
pub fn kills(kb: &FactBase, redundant: bool, derived: &[u32]) -> (r: bool)
    requires
        kb.wf(),
        forall|i: int| 0 <= i < derived@.len() ==> (#[trigger] derived@[i]) < kb.shapes@.len(),
    ensures
        r == (!redundant && exists|i: int| 0 <= i < derived@.len() && kb.creates_contradiction(#[trigger] derived@[i])),
{
    if redundant {
        return false;
    }
    let mut i: usize = 0;
    while i < derived.len()
        invariant
            kb.wf(),
            forall|i: int| 0 <= i < derived@.len() ==> (#[trigger] derived@[i]) < kb.shapes@.len(),
            i <= derived@.len(),
            forall|k: int| 0 <= k < i ==> !kb.creates_contradiction(#[trigger] derived@[k]),
            !redundant,
        decreases derived@.len() - i,
    {
        if contradicts(kb, derived[i]) {
            assert(kb.creates_contradiction(derived@[i as int]));
            return true;
        }
        i = i + 1;
    }
    false
}

pub(crate) proof fn lemma_pair_found(kb: &FactBase, k: nat, i: int)
    requires
        0 <= i < k <= kb.negations@.len(),
        kb.pairs(kb.negations@[i]),
    ensures
        kb.pairs_upto(k).len() > 0,
    decreases k,
{
    if i < k - 1 {
        lemma_pair_found(kb, (k - 1) as nat, i);
    }
}

proof fn lemma_pair_exists(kb: &FactBase, k: nat)
    requires
        k <= kb.negations@.len(),
        kb.pairs_upto(k).len() > 0,
    ensures
        exists|i: int| 0 <= i < k && kb.pairs(#[trigger] kb.negations@[i]),
    decreases k,
{
    if k > 0 {
        let n = kb.negations@[k - 1];
        if !kb.pairs(n) {
            lemma_pair_exists(kb, (k - 1) as nat);
            let i = choose|i: int| 0 <= i < k - 1 && kb.pairs(#[trigger] kb.negations@[i]);
            assert(kb.pairs(kb.negations@[i]));
        }
    }
}

/// A contradiction is never retracted: a KB that holds everything an
/// inconsistent one holds, over the same facts, is inconsistent too.
pub proof fn lemma_contradiction_persists(a: &FactBase, b: &FactBase)
    requires
        a.wf(),
        b.wf(),
        a.shapes@ == b.shapes@,
        forall|f: int| 0 <= f < a.held@.len() && #[trigger] a.held@[f] ==> b.held@[f],
        a.detected().len() > 0,
    ensures
        b.detected().len() > 0,
{
    if a.falses@.len() > 0 {
        let f = a.falses@[0];
        assert(a.falses@.contains(f));
        assert(a.held@[f as int]);
        assert(b.falses@.contains(f));
        assert(b.detected().len() >= b.falses@.len());
    } else {
        let na = a.negations@.len();
        assert(a.detected().len() == a.pairs_upto(na).len());
        lemma_pair_exists(a, na);
        let i = choose|i: int| 0 <= i < na && a.pairs(#[trigger] a.negations@[i]);
        let n = a.negations@[i];
        assert(a.negations@.contains(n));
        assert(a.held@[n as int]);
        assert(b.negations@.contains(n));
        let j = choose|j: int| 0 <= j < b.negations@.len() && b.negations@[j] == n;
        let x = a.inner(n)->Some_0;
        assert(a.held@[x as int]);
        assert(b.pairs(b.negations@[j]));
        lemma_pair_found(b, b.negations@.len(), j);
        assert(b.detected().len() >= b.pairs_upto(b.negations@.len()).len());
    }
}

/// Fail-fast stops only a fork that is really dead: a held conclusion that
/// makes the KB inconsistent leaves a contradiction for detection to find.
pub proof fn lemma_kill_is_detected(kb: &FactBase, fact: u32)
    requires
        kb.wf(),
        fact < kb.shapes@.len(),
        kb.held@[fact as int],
        kb.creates_contradiction(fact),
    ensures
        kb.detected().len() > 0,
{
    let nn = kb.negations@.len();
    match kb.shapes@[fact as int] {
        crate::contradiction::Shape::False => {
            assert(kb.falses@.contains(fact));
            assert(kb.detected().len() >= kb.falses@.len());
        },
        crate::contradiction::Shape::Not(_) => {
            assert(kb.negations@.contains(fact));
            let j = choose|j: int| 0 <= j < nn && kb.negations@[j] == fact;
            lemma_pair_found(kb, nn, j);
            assert(kb.detected().len() >= kb.pairs_upto(nn).len());
        },
        crate::contradiction::Shape::Positive => {
            let i = choose|i: int| 0 <= i < nn && kb.inner(#[trigger] kb.negations@[i]) == Some(fact);
            assert(kb.pairs(kb.negations@[i]));
            lemma_pair_found(kb, nn, i);
            assert(kb.detected().len() >= kb.pairs_upto(nn).len());
        },
    }
}

/// Fact `f`'s shape: a `false` fact, a `not` fact with its first argument
/// when that is a fact, or a positive one.
pub open spec fn shape_of(tbl: &FactTable, f: int, false_rel: u32, not_rel: u32) -> Shape {
    let row = tbl.rows@[f];
    if row.rel == false_rel {
        Shape::False
    } else if row.rel == not_rel {
        if row.args@.len() > 0 && row.args@[0] is Fact {
            Shape::Not(Some(row.args@[0]->Fact_0))
        } else {
            Shape::Not(None)
        }
    } else {
        Shape::Positive
    }
}

/// The KB holds a contradiction: a `false` fact, or a `(not X)` with `X`
/// held too.
pub open spec fn contradicted(tbl: &FactTable, kb: Seq<u32>, false_rel: u32, not_rel: u32) -> bool {
    exists|k: int|
        0 <= k < kb.len() && (shape_of(tbl, #[trigger] kb[k] as int, false_rel, not_rel) is False || (shape_of(
            tbl,
            kb[k] as int,
            false_rel,
            not_rel,
        ) matches Shape::Not(Some(x)) && kb.contains(x)))
}

/// The test for a `false` fact.
pub open spec fn is_false(tbl: &FactTable, false_rel: u32, not_rel: u32) -> spec_fn(u32) -> bool {
    |f: u32| shape_of(tbl, f as int, false_rel, not_rel) is False
}

/// The test for a `not` fact.
pub open spec fn is_not(tbl: &FactTable, false_rel: u32, not_rel: u32) -> spec_fn(u32) -> bool {
    |f: u32| shape_of(tbl, f as int, false_rel, not_rel) is Not
}

/// The facts of `kb` of one shape kind, in KB order.
pub open spec fn of_shape(tbl: &FactTable, kb: Seq<u32>, false_rel: u32, not_rel: u32, falses: bool) -> Seq<u32> {
    if falses {
        kb.filter(is_false(tbl, false_rel, not_rel))
    } else {
        kb.filter(is_not(tbl, false_rel, not_rel))
    }
}

/// What contradiction detection reads of the table and the KB.
pub fn fact_base(tbl: &FactTable, kb: &Vec<u32>, false_rel: u32, not_rel: u32) -> (fb: FactBase)
    requires
        tbl.wf(),
        tbl.rows@.len() <= u32::MAX,
        kb_ok(tbl, kb@),
    ensures
        fb.wf(),
        fb.shapes@.len() == tbl.rows@.len(),
        forall|f: int| 0 <= f < tbl.rows@.len() ==> #[trigger] fb.shapes@[f] == shape_of(tbl, f, false_rel, not_rel),
        forall|f: int| 0 <= f < tbl.rows@.len() ==> (#[trigger] fb.held@[f] <==> kb@.contains(f as u32)),
        fb.detected().len() > 0 <==> contradicted(tbl, kb@, false_rel, not_rel),
{
    let n = tbl.rows.len();
    let mut shapes: Vec<Shape> = Vec::new();
    let mut held: Vec<bool> = Vec::new();
    let mut f: usize = 0;
    while f < n
        invariant
            n == tbl.rows@.len(),
            f <= n,
            shapes@.len() == f,
            held@.len() == f,
            forall|g: int| 0 <= g < f ==> #[trigger] shapes@[g] == shape_of(tbl, g, false_rel, not_rel),
            forall|g: int| 0 <= g < f ==> !(#[trigger] held@[g]),
        decreases n - f,
    {
        let row = &tbl.rows[f];
        let sh = if row.rel == false_rel {
            Shape::False
        } else if row.rel == not_rel {
            if row.args.len() > 0 {
                match row.args[0] {
                    Arg::Fact(x) => Shape::Not(Some(x)),
                    _ => Shape::Not(None),
                }
            } else {
                Shape::Not(None)
            }
        } else {
            Shape::Positive
        };
        shapes.push(sh);
        held.push(false);
        f = f + 1;
    }
    let mut falses: Vec<u32> = Vec::new();
    let mut negations: Vec<u32> = Vec::new();
    let mut k: usize = 0;
    while k < kb.len()
        invariant
            n == tbl.rows@.len(),
            n <= u32::MAX,
            kb_ok(tbl, kb@),
            shapes@.len() == n,
            held@.len() == n,
            forall|g: int| 0 <= g < n ==> #[trigger] shapes@[g] == shape_of(tbl, g, false_rel, not_rel),
            k <= kb@.len(),
            forall|g: int| 0 <= g < n ==> (#[trigger] held@[g] <==> kb@.take(k as int).contains(g as u32)),
            falses@ == of_shape(tbl, kb@.take(k as int), false_rel, not_rel, true),
            negations@ == of_shape(tbl, kb@.take(k as int), false_rel, not_rel, false),
        decreases kb@.len() - k,
    {
        let g = kb[k];
        let ghost pre = kb@.take(k as int);
        assert(kb@.take(k + 1) =~= pre.push(g));
        held.set(g as usize, true);
        match shapes[g as usize] {
            Shape::False => falses.push(g),
            Shape::Not(_) => negations.push(g),
            Shape::Positive => {},
        }
        proof {
            assert forall|x: int| 0 <= x < n implies (#[trigger] held@[x] <==> kb@.take(k + 1).contains(x as u32)) by {
                if x == g as int {
                    assert(kb@.take(k + 1)[k as int] == g);
                } else {
                    let t1 = kb@.take(k + 1);
                    assert(t1[k as int] == g);
                    if t1.contains(x as u32) {
                        let w = choose|w: int| 0 <= w < t1.len() && t1[w] == x as u32;
                        assert(w != k);
                        assert(pre[w] == x as u32);
                    }
                    if pre.contains(x as u32) {
                        let w = choose|w: int| 0 <= w < pre.len() && pre[w] == x as u32;
                        assert(kb@.take(k + 1)[w] == x as u32);
                    }
                }
            }
            reveal(Seq::filter);
            assert(of_shape(tbl, pre.push(g), false_rel, not_rel, true) == if shape_of(tbl, g as int, false_rel, not_rel) is False {
                of_shape(tbl, pre, false_rel, not_rel, true).push(g)
            } else {
                of_shape(tbl, pre, false_rel, not_rel, true)
            }) by {
                assert(pre.push(g).drop_last() =~= pre);
            }
            assert(of_shape(tbl, pre.push(g), false_rel, not_rel, false) == if shape_of(tbl, g as int, false_rel, not_rel) is Not {
                of_shape(tbl, pre, false_rel, not_rel, false).push(g)
            } else {
                of_shape(tbl, pre, false_rel, not_rel, false)
            }) by {
                assert(pre.push(g).drop_last() =~= pre);
            }
        }
        k = k + 1;
    }
    proof {
        assert(kb@.take(kb@.len() as int) =~= kb@);
    }
    let fb = FactBase { shapes, held, falses, negations };
    proof {
        lemma_fact_base(tbl, kb@, false_rel, not_rel, &fb);
    }
    fb
}

proof fn lemma_filter_facts(kb: Seq<u32>, p: spec_fn(u32) -> bool)
    requires
        kb.no_duplicates(),
    ensures
        kb.filter(p).no_duplicates(),
        forall|x: u32| kb.filter(p).contains(x) <==> kb.contains(x) && p(x),
{
    assert forall|x: u32| kb.filter(p).contains(x) implies kb.contains(x) && p(x) by {
        kb.lemma_filter_contains_rev(p, x);
        let i = choose|i: int| 0 <= i < kb.filter(p).len() && kb.filter(p)[i] == x;
        kb.lemma_filter_pred(p, i);
    }
    assert forall|x: u32| kb.contains(x) && p(x) implies kb.filter(p).contains(x) by {
        let i = choose|i: int| 0 <= i < kb.len() && kb[i] == x;
        kb.lemma_filter_contains(p, i);
    }
    lemma_filter_no_dup(kb, p);
}

proof fn lemma_filter_no_dup(kb: Seq<u32>, p: spec_fn(u32) -> bool)
    requires
        kb.no_duplicates(),
    ensures
        kb.filter(p).no_duplicates(),
    decreases kb.len(),
{
    reveal(Seq::filter);
    if kb.len() > 0 {
        let pre = kb.drop_last();
        assert(pre.no_duplicates());
        lemma_filter_no_dup(pre, p);
        if p(kb.last()) {
            assert(kb.filter(p) == pre.filter(p).push(kb.last()));
            assert(!pre.contains(kb.last())) by {
                if pre.contains(kb.last()) {
                    let w = choose|w: int| 0 <= w < pre.len() && pre[w] == kb.last();
                    assert(kb[w] == kb[kb.len() - 1]);
                }
            }
            if pre.filter(p).contains(kb.last()) {
                pre.lemma_filter_contains_rev(p, kb.last());
            }
        }
    }
}

proof fn lemma_pairs_nonempty(fb: &FactBase, k: nat)
    requires
        k <= fb.negations@.len(),
    ensures
        fb.pairs_upto(k).len() > 0 <==> exists|i: int| 0 <= i < k && fb.pairs(#[trigger] fb.negations@[i]),
    decreases k,
{
    if k > 0 {
        lemma_pairs_nonempty(fb, (k - 1) as nat);
    }
}

proof fn lemma_fact_base(tbl: &FactTable, kb: Seq<u32>, false_rel: u32, not_rel: u32, fb: &FactBase)
    requires
        tbl.wf(),
        tbl.rows@.len() <= u32::MAX,
        kb_ok(tbl, kb),
        fb.shapes@.len() == tbl.rows@.len(),
        fb.held@.len() == tbl.rows@.len(),
        forall|g: int| 0 <= g < tbl.rows@.len() ==> #[trigger] fb.shapes@[g] == shape_of(tbl, g, false_rel, not_rel),
        forall|g: int| 0 <= g < tbl.rows@.len() ==> (#[trigger] fb.held@[g] <==> kb.contains(g as u32)),
        fb.falses@ == of_shape(tbl, kb, false_rel, not_rel, true),
        fb.negations@ == of_shape(tbl, kb, false_rel, not_rel, false),
    ensures
        fb.wf(),
        fb.detected().len() > 0 <==> contradicted(tbl, kb, false_rel, not_rel),
{
    let pf = is_false(tbl, false_rel, not_rel);
    let pn = is_not(tbl, false_rel, not_rel);
    lemma_filter_facts(kb, pf);
    lemma_filter_facts(kb, pn);
    assert(fb.falses@ == kb.filter(pf));
    assert(fb.negations@ == kb.filter(pn));
    assert forall|f: int| 0 <= f < fb.shapes@.len() implies match #[trigger] fb.shapes@[f] {
        Shape::Not(Some(x)) => x < fb.shapes@.len(),
        _ => true,
    } by {
        assert(tbl.row_ok(f));
        if tbl.rows@[f].rel != false_rel && tbl.rows@[f].rel == not_rel && tbl.rows@[f].args@.len() > 0 {
            assert(tbl.arg_ok(tbl.rows@[f].args@[0], f));
        }
    }
    assert forall|i: int| 0 <= i < fb.falses@.len() implies (#[trigger] fb.falses@[i]) < fb.shapes@.len() by {
        assert(fb.falses@.contains(fb.falses@[i]));
        assert(kb.contains(fb.falses@[i]));
        let w = choose|w: int| 0 <= w < kb.len() && kb[w] == fb.falses@[i];
        assert(kb[w] < tbl.rows@.len());
    }
    assert forall|i: int| 0 <= i < fb.negations@.len() implies (#[trigger] fb.negations@[i]) < fb.shapes@.len() by {
        assert(fb.negations@.contains(fb.negations@[i]));
        assert(kb.contains(fb.negations@[i]));
        let w = choose|w: int| 0 <= w < kb.len() && kb[w] == fb.negations@[i];
        assert(kb[w] < tbl.rows@.len());
    }
    assert(fb.wf());
    lemma_pairs_nonempty(fb, fb.negations@.len());
    let d = fb.detected();
    let fs = fb.falses@.map_values(|f: u32| crate::contradiction::Contradiction { positive: None, negative: f, kind: crate::contradiction::Kind::Direct });
    assert(d.len() == fs.len() + fb.pairs_upto(fb.negations@.len()).len());
    if contradicted(tbl, kb, false_rel, not_rel) {
        let k = choose|k: int|
            0 <= k < kb.len() && (shape_of(tbl, #[trigger] kb[k] as int, false_rel, not_rel) is False || (shape_of(
                tbl,
                kb[k] as int,
                false_rel,
                not_rel,
            ) matches Shape::Not(Some(x)) && kb.contains(x)));
        let f = kb[k];
        assert(kb.contains(f));
        if shape_of(tbl, f as int, false_rel, not_rel) is False {
            assert(fb.falses@.contains(f));
        } else {
            assert(fb.negations@.contains(f));
            let i = choose|i: int| 0 <= i < fb.negations@.len() && fb.negations@[i] == f;
            let x = shape_of(tbl, f as int, false_rel, not_rel)->Not_0->Some_0;
            assert(x < tbl.rows@.len());
            assert(fb.held@[x as int]);
            assert(fb.pairs(fb.negations@[i]));
        }
    }
    if d.len() > 0 {
        if fb.falses@.len() > 0 {
            let f = fb.falses@[0];
            assert(fb.falses@.contains(f));
            let k = choose|k: int| 0 <= k < kb.len() && kb[k] == f;
            assert(shape_of(tbl, kb[k] as int, false_rel, not_rel) is False);
        } else {
            let i = choose|i: int| 0 <= i < fb.negations@.len() && fb.pairs(#[trigger] fb.negations@[i]);
            let nf = fb.negations@[i];
            assert(fb.negations@.contains(nf));
            let k = choose|k: int| 0 <= k < kb.len() && kb[k] == nf;
            let x = fb.inner(nf)->Some_0;
            assert(fb.held@[x as int]);
            assert(kb.contains(x));
            assert(shape_of(tbl, kb[k] as int, false_rel, not_rel) matches Shape::Not(Some(y)) && kb.contains(y));
        }
    }
}

/// `root` with the facts of `hs` written in order, each not yet held
/// appended once.
pub open spec fn forked(root: Seq<u32>, hs: Seq<u32>) -> Seq<u32>
    decreases hs.len(),
{
    if hs.len() == 0 {
        root
    } else {
        let prev = forked(root, hs.drop_last());
        if prev.contains(hs.last()) {
            prev
        } else {
            prev.push(hs.last())
        }
    }
}

proof fn lemma_contradicted_grown(t1: &FactTable, t2: &FactTable, kb: Seq<u32>, false_rel: u32, not_rel: u32)
    requires
        grown(t1, t2),
        forall|k: int| 0 <= k < kb.len() ==> (#[trigger] kb[k]) < t1.rows@.len(),
    ensures
        contradicted(t1, kb, false_rel, not_rel) == contradicted(t2, kb, false_rel, not_rel),
{
    assert forall|k: int| 0 <= k < kb.len() implies shape_of(t1, #[trigger] kb[k] as int, false_rel, not_rel) == shape_of(
        t2,
        kb[k] as int,
        false_rel,
        not_rel,
    ) by {
        assert(t2.rows@.take(t1.rows@.len() as int)[kb[k] as int] == t2.rows@[kb[k] as int]);
    }
}

fn copy_ids(s: &[u32]) -> (r: Vec<u32>)
    ensures
        r@ == s@,
{
    let mut r: Vec<u32> = Vec::new();
    let mut i: usize = 0;
    while i < s.len()
        invariant
            i <= s@.len(),
            r@ == s@.take(i as int),
        decreases s@.len() - i,
    {
        r.push(s[i]);
        i = i + 1;
        assert(r@ =~= s@.take(i as int));
    }
    assert(s@.take(s@.len() as int) =~= s@);
    r
}

/// One entering's outcome.
pub struct CommitmentSetResult {
    pub commitment: Vec<u32>,
    /// The fork's KB: the root's facts, the hypotheses, and whatever
    /// saturation derived.
    pub kb: Vec<u32>,
    /// The fork's saturation's productive firings, in order.
    pub firings: Vec<Firing>,
    pub kind: Kind,
    /// The hypothesis writes, one per committed fact.
    pub hypothesis_facts: Vec<u32>,
}

/// Fork the root KB, write every hypothesis in `commitment`, and judge:
/// contradictory at once is `DeadPre` (no saturation runs); otherwise
/// saturate the fork and judge again — `DeadPost` or `Alive`. The root is
/// read, never written: forks share no KB.
pub fn try_commitment_set(
    tbl: &mut FactTable,
    root: &Vec<u32>,
    rules: &Vec<Rule>,
    commitment: &[u32],
    steps: Option<usize>,
    false_rel: u32,
    not_rel: u32,
) -> (r: Result<CommitmentSetResult, SaturateError>)
    requires
        old(tbl).wf(),
        unique_rows(old(tbl)),
        old(tbl).rows@.len() <= u32::MAX,
        kb_ok(old(tbl), root@),
        rules_ok(old(tbl), rules@),
        forall|i: int| 0 <= i < commitment@.len() ==> (#[trigger] commitment@[i]) < old(tbl).rows@.len(),
    ensures
        final(tbl).wf(),
        grown(old(tbl), final(tbl)),
        r matches Ok(res) ==> {
            let fork = forked(root@, commitment@);
            &&& res.commitment@ == commitment@
            &&& res.hypothesis_facts@ == commitment@
            &&& fork.len() <= res.kb@.len()
            &&& res.kb@.take(fork.len() as int) == fork
            &&& kb_ok(final(tbl), res.kb@)
            &&& (res.kind == Kind::DeadPre) == contradicted(final(tbl), fork, false_rel, not_rel)
            &&& res.kind == Kind::DeadPre ==> res.kb@ == fork && res.firings@.len() == 0
            &&& res.kind != Kind::DeadPre ==> {
                &&& fixed(final(tbl), res.kb@, rules@)
                &&& (res.kind == Kind::DeadPost) == contradicted(final(tbl), res.kb@, false_rel, not_rel)
                &&& logged(fork, res.firings@, res.kb@)
                &&& (res.firings@.len() == 0 <==> res.kb@.len() == fork.len())
                &&& forall|k: int| fork.len() <= k < res.kb@.len() ==> #[trigger] derived_fact(final(tbl), res.kb@, rules@, k)
            }
        },
        r is Err ==> !contradicted(old(tbl), forked(root@, commitment@), false_rel, not_rel),
{
    let mut fork = crate::match_::copy_vec(root);
    let mut i: usize = 0;
    while i < commitment.len()
        invariant
            tbl.wf(),
            tbl.rows@.len() <= u32::MAX,
            forall|q: int| 0 <= q < commitment@.len() ==> (#[trigger] commitment@[q]) < tbl.rows@.len(),
            i <= commitment@.len(),
            fork@ == forked(root@, commitment@.take(i as int)),
            kb_ok(tbl, fork@),
        decreases commitment@.len() - i,
    {
        let h = commitment[i];
        let ghost prev = fork@;
        proof {
            assert(commitment@.take(i + 1).drop_last() =~= commitment@.take(i as int));
            assert(commitment@.take(i + 1).last() == h);
        }
        if !holds_in(&fork, h) {
            fork.push(h);
            proof {
                assert forall|x: int, y: int| 0 <= x < y < fork@.len() implies fork@[x] != fork@[y] by {
                    if y == prev.len() {
                        assert(prev.contains(prev[x]));
                    }
                }
                assert forall|k: int| 0 <= k < fork@.len() implies (#[trigger] fork@[k]) < tbl.rows@.len() by {
                    if k < prev.len() {
                        assert(fork@[k] == prev[k]);
                    }
                }
            }
        }
        i = i + 1;
    }
    proof {
        assert(commitment@.take(commitment@.len() as int) =~= commitment@);
        assert(tbl.rows@.take(tbl.rows@.len() as int) =~= tbl.rows@);
    }
    let hypothesis_facts = copy_ids(commitment);
    let fb = fact_base(tbl, &fork, false_rel, not_rel);
    let found = detect(&fb);
    if found.len() > 0 {
        return Ok(CommitmentSetResult {
            commitment: copy_ids(commitment),
            kb: fork,
            firings: Vec::new(),
            kind: Kind::DeadPre,
            hypothesis_facts,
        });
    }
    let ghost t0 = *tbl;
    let ghost fork0 = fork@;
    let mut log: Vec<Firing> = Vec::new();
    let _n = saturate(tbl, &mut fork, rules, steps, &mut log)?;
    proof {
        assert(log@.skip(0) =~= log@);
        lemma_contradicted_grown(&t0, tbl, fork0, false_rel, not_rel);
        assert(fork@.take(fork0.len() as int) == fork0);
    }
    let fb2 = fact_base(tbl, &fork, false_rel, not_rel);
    let found2 = detect(&fb2);
    let kind = if found2.len() > 0 {
        Kind::DeadPost
    } else {
        Kind::Alive
    };
    Ok(CommitmentSetResult {
        commitment: copy_ids(commitment),
        kb: fork,
        firings: log,
        kind,
        hypothesis_facts,
    })
}

} // verus!
