//! What a quiescent knowledge base still owes.
//!
//! An obligation rule derives nothing: it matches while the witness it
//! demands is missing, so every instance that still matches at the
//! fixpoint — and whose guards find no witness — is a debt. The tally is
//! state of the search node, never a fact: openness exists to be destroyed
//! by an extension.
//!
//! The matcher runs stay with the engine; this module takes their hits,
//! folds repeated bindings into one debt, drops the instances a guard
//! discharged, and reads the tally: the total, and the per-relation
//! counts in first-owed order.
use vstd::prelude::*;

use crate::events::{binding_pairs, comma, event_text, json_str, list, with_key, Events, Line};
use crate::facts::{Arg, FactTable};

verus! {

/// One undischarged obligation: a `(rule, bindings)` instance that still
/// matches at the fixpoint.
pub struct Owed {
    pub rule: u32,
    /// The parameters the activator fact bound.
    pub activator: Vec<u32>,
    /// The relation whose extent is incomplete — `(open ?R)`'s argument;
    /// `None` for the bare `(open)`, which counts but names no relation.
    pub relation: Option<u32>,
    pub bindings: Vec<(u32, Arg)>,
    /// The rule's `:why`, rendered against the bindings; empty when the
    /// rule declares none.
    pub why: String,
}

/// An instance as plain values.
pub struct OwedView {
    pub rule: u32,
    pub activator: Seq<u32>,
    pub relation: Option<u32>,
    pub bindings: Seq<(u32, Arg)>,
    pub why: Seq<char>,
}

impl View for Owed {
    type V = OwedView;

    open spec fn view(&self) -> OwedView {
        OwedView {
            rule: self.rule,
            activator: self.activator@,
            relation: self.relation,
            bindings: self.bindings@,
            why: self.why@,
        }
    }
}

/// What a quiescent knowledge base owes: its instances, in report order.
pub struct Owes {
    instances: Vec<Owed>,
}

/// The instances' relations, in order.
pub open spec fn relations_of(items: Seq<OwedView>) -> Seq<Option<u32>> {
    items.map_values(|o: OwedView| o.relation)
}

/// How many of `rels` name relation `r`.
pub open spec fn owed_count(rels: Seq<Option<u32>>, r: u32) -> nat
    decreases rels.len(),
{
    if rels.len() == 0 {
        0
    } else {
        owed_count(rels.drop_last(), r) + if rels.last() == Some(r) {
            1nat
        } else {
            0nat
        }
    }
}

/// How many of `rels` are bare.
pub open spec fn bare_count(rels: Seq<Option<u32>>) -> nat
    decreases rels.len(),
{
    if rels.len() == 0 {
        0
    } else {
        bare_count(rels.drop_last()) + if rels.last() is None {
            1nat
        } else {
            0nat
        }
    }
}

/// The named relations, each once, in the order each was first owed.
pub open spec fn first_owed(rels: Seq<Option<u32>>) -> Seq<u32>
    decreases rels.len(),
{
    if rels.len() == 0 {
        seq![]
    } else {
        let prev = first_owed(rels.drop_last());
        match rels.last() {
            Some(r) => if prev.contains(r) {
                prev
            } else {
                prev.push(r)
            },
            None => prev,
        }
    }
}

/// The sum of the counts of `keys`.
pub open spec fn counted(keys: Seq<u32>, rels: Seq<Option<u32>>) -> nat
    decreases keys.len(),
{
    if keys.len() == 0 {
        0
    } else {
        counted(keys.drop_last(), rels) + owed_count(rels, keys.last())
    }
}

impl Owes {
    /// The instances, as plain values.
    pub closed spec fn items(&self) -> Seq<OwedView> {
        self.instances@.map_values(|o: Owed| o@)
    }

    /// Nothing owed.
    pub fn new() -> (o: Owes)
        ensures
            o.items() == Seq::<OwedView>::empty(),
    {
        let o = Owes { instances: Vec::new() };
        assert(o.items() =~= Seq::<OwedView>::empty());
        o
    }

    /// The instances, in report order.
    pub fn instances(&self) -> (r: &[Owed])
        ensures
            r@.map_values(|o: Owed| o@) == self.items(),
    {
        self.instances.as_slice()
    }

    /// How many instances are owed, bare ones included.
    pub fn total(&self) -> (n: usize)
        ensures
            n == self.items().len(),
    {
        self.instances.len()
    }

    pub fn is_empty(&self) -> (b: bool)
        ensures
            b == (self.items().len() == 0),
    {
        self.instances.len() == 0
    }

    /// The per-relation tally, in first-owed order: each named relation
    /// once, with how many instances owe it. A bare `(open)` counts toward
    /// [`Owes::total`] and toward nothing here.
    pub fn by_relation(&self) -> (out: Vec<(u32, usize)>)
        ensures
            out@.len() == first_owed(relations_of(self.items())).len(),
            forall|k: int|
                0 <= k < out@.len() ==> (#[trigger] out@[k]).0 == first_owed(relations_of(self.items()))[k]
                    && out@[k].1 == owed_count(relations_of(self.items()), out@[k].0),
    {
        let ghost rels = relations_of(self.items());
        let mut out: Vec<(u32, usize)> = Vec::new();
        let n = self.instances.len();
        let mut i: usize = 0;
        while i < n
            invariant
                n == self.instances@.len(),
                rels == relations_of(self.items()),
                rels.len() == n,
                i <= n,
                out@.len() == first_owed(rels.take(i as int)).len(),
                forall|k: int|
                    0 <= k < out@.len() ==> (#[trigger] out@[k]).0 == first_owed(rels.take(i as int))[k]
                        && out@[k].1 == owed_count(rels.take(i as int), out@[k].0),
            decreases n - i,
        {
            let ghost p = rels.take(i as int);
            let ghost q = rels.take(i + 1);
            assert(q.drop_last() =~= p);
            assert(q.last() == rels[i as int]);
            assert(rels[i as int] == self.instances@[i as int].relation);
            proof {
                lemma_first_owed_distinct(p);
            }
            match self.instances[i].relation {
                None => {
                    assert forall|k: int| 0 <= k < out@.len() implies owed_count(q, #[trigger] out@[k].0)
                        == owed_count(p, out@[k].0) by {}
                },
                Some(r) => {
                    let m = out.len();
                    let mut j: usize = 0;
                    while j < m
                        invariant
                            m == out@.len(),
                            j <= m,
                            forall|k: int| 0 <= k < j ==> (#[trigger] out@[k]).0 != r,
                        ensures
                            j <= m,
                            j < m ==> out@[j as int].0 == r,
                            forall|k: int| 0 <= k < j ==> (#[trigger] out@[k]).0 != r,
                        decreases m - j,
                    {
                        if out[j].0 == r {
                            break;
                        }
                        j = j + 1;
                    }
                    if j < m {
                        assert(first_owed(p).contains(r)) by {
                            assert(first_owed(p)[j as int] == r);
                        }
                        assert(out@[j as int].1 == owed_count(p, r));
                        proof {
                            lemma_count_le_len(p, r);
                        }
                        let c = out[j].1 + 1;
                        out.set(j, (r, c));
                        assert forall|k: int| 0 <= k < out@.len() implies (#[trigger] out@[k]).0 == first_owed(q)[k]
                            && out@[k].1 == owed_count(q, out@[k].0) by {
                            if k != j {
                                assert(out@[k].0 != r) by {
                                    assert(first_owed(p)[k] != first_owed(p)[j as int]);
                                }
                            }
                        }
                    } else {
                        assert(!first_owed(p).contains(r)) by {
                            if first_owed(p).contains(r) {
                                let k = choose|k: int| 0 <= k < first_owed(p).len() && first_owed(p)[k] == r;
                                assert(out@[k].0 == r);
                            }
                        }
                        proof {
                            lemma_unowed_zero(p, r);
                        }
                        out.push((r, 1));
                        assert forall|k: int| 0 <= k < out@.len() implies (#[trigger] out@[k]).0 == first_owed(q)[k]
                            && out@[k].1 == owed_count(q, out@[k].0) by {
                            if k < m {
                                assert(out@[k].0 != r);
                            }
                        }
                    }
                },
            }
            i = i + 1;
        }
        assert(rels.take(n as int) =~= rels);
        out
    }

    /// How many instances owe `relation`.
    pub fn owed_by(&self, relation: u32) -> (c: usize)
        ensures
            c == owed_count(relations_of(self.items()), relation),
    {
        let ghost rels = relations_of(self.items());
        let n = self.instances.len();
        let mut c: usize = 0;
        let mut i: usize = 0;
        while i < n
            invariant
                n == self.instances@.len(),
                rels == relations_of(self.items()),
                rels.len() == n,
                i <= n,
                c == owed_count(rels.take(i as int), relation),
            decreases n - i,
        {
            let ghost p = rels.take(i as int);
            assert(rels.take(i + 1).drop_last() =~= p);
            assert(rels[i as int] == self.instances@[i as int].relation);
            proof {
                lemma_count_le_len(p, relation);
            }
            if self.instances[i].relation == Some(relation) {
                c = c + 1;
            }
            i = i + 1;
        }
        assert(rels.take(n as int) =~= rels);
        c
    }
}

proof fn lemma_count_le_len(rels: Seq<Option<u32>>, r: u32)
    ensures
        owed_count(rels, r) <= rels.len(),
    decreases rels.len(),
{
    if rels.len() > 0 {
        lemma_count_le_len(rels.drop_last(), r);
    }
}

/// The per-relation tally and the single count agree: a relation the
/// tally does not list is owed by no instance.
pub proof fn lemma_unowed_zero(rels: Seq<Option<u32>>, r: u32)
    requires
        !first_owed(rels).contains(r),
    ensures
        owed_count(rels, r) == 0,
    decreases rels.len(),
{
    if rels.len() > 0 {
        let prev = first_owed(rels.drop_last());
        assert(!prev.contains(r)) by {
            if prev.contains(r) {
                let k = choose|k: int| 0 <= k < prev.len() && prev[k] == r;
                match rels.last() {
                    Some(x) => {
                        if !prev.contains(x) {
                            assert(first_owed(rels)[k] == r);
                        }
                    },
                    None => {},
                }
            }
        }
        lemma_unowed_zero(rels.drop_last(), r);
        if rels.last() == Some(r) {
            assert(first_owed(rels).contains(r)) by {
                assert(first_owed(rels) == prev.push(r));
                assert(first_owed(rels)[prev.len() as int] == r);
            }
        }
    }
}

/// The first-owed relations are distinct.
proof fn lemma_first_owed_distinct(rels: Seq<Option<u32>>)
    ensures
        first_owed(rels).no_duplicates(),
    decreases rels.len(),
{
    if rels.len() > 0 {
        lemma_first_owed_distinct(rels.drop_last());
    }
}

/// Counting `keys` over one more instance: it adds one exactly when the
/// instance names one of the (distinct) keys.
proof fn lemma_counted_push(keys: Seq<u32>, rels: Seq<Option<u32>>, x: Option<u32>)
    requires
        keys.no_duplicates(),
    ensures
        counted(keys, rels.push(x)) == counted(keys, rels) + if x is Some && keys.contains(x->0) {
            1nat
        } else {
            0nat
        },
    decreases keys.len(),
{
    if keys.len() > 0 {
        let init = keys.drop_last();
        assert(init.no_duplicates());
        lemma_counted_push(init, rels, x);
        assert(rels.push(x).drop_last() =~= rels);
        match x {
            Some(r) => {
                assert(keys.contains(r) == (init.contains(r) || keys.last() == r)) by {
                    if keys.contains(r) {
                        let k = choose|k: int| 0 <= k < keys.len() && keys[k] == r;
                        if k < keys.len() - 1 {
                            assert(init[k] == r);
                        }
                    }
                    if init.contains(r) {
                        let k = choose|k: int| 0 <= k < init.len() && init[k] == r;
                        assert(keys[k] == r);
                    }
                    if keys.last() == r {
                        assert(keys[keys.len() - 1] == r);
                    }
                }
                if init.contains(r) {
                    let k = choose|k: int| 0 <= k < init.len() && init[k] == r;
                    assert(keys[k] == keys[keys.len() - 1] ==> k == keys.len() - 1);
                }
            },
            None => {},
        }
    }
}

/// Every instance is counted once: the per-relation counts and the bare
/// instances add up to the total.
pub proof fn lemma_tally_conserves(rels: Seq<Option<u32>>)
    ensures
        counted(first_owed(rels), rels) + bare_count(rels) == rels.len(),
    decreases rels.len(),
{
    if rels.len() > 0 {
        let p = rels.drop_last();
        let x = rels.last();
        lemma_tally_conserves(p);
        lemma_first_owed_distinct(p);
        assert(p.push(x) =~= rels);
        lemma_counted_push(first_owed(p), p, x);
        match x {
            Some(r) => {
                if !first_owed(p).contains(r) {
                    lemma_unowed_zero(p, r);
                    let keys = first_owed(p).push(r);
                    assert(keys.drop_last() =~= first_owed(p));
                    assert(first_owed(rels) == keys);
                }
            },
            None => {},
        }
    }
}

// ── From the matcher's hits to the debts ─────────────────────────────

/// One match of an obligation plan, with its guards judged.
pub struct Hit {
    /// What the plan bound, in binding order.
    pub bindings: Vec<(u32, Arg)>,
    /// Whether a guard of the matched disjunct holds — the witness has
    /// arrived and the instance is paid.
    pub discharged: bool,
    /// The rule's `:why` rendered against these bindings.
    pub why: String,
}

/// One `(obligation rule, activator)` plan's run, in report order: what
/// the plan is, and its hits in match order.
pub struct PlanRun {
    pub rule: u32,
    pub activator: Vec<u32>,
    /// `(open ?R)`'s argument, substituted; `None` for the bare `(open)`.
    pub relation: Option<u32>,
    pub hits: Vec<Hit>,
}

/// Hit `j` is the first with its bindings: two disjuncts reaching the
/// same bindings are one debt.
pub open spec fn first_bound(hits: Seq<Hit>, j: int) -> bool {
    forall|k: int| 0 <= k < j ==> hits[k].bindings@ != hits[j].bindings@
}

/// The debt a hit of `run` records.
pub open spec fn debt(run: PlanRun, h: Hit) -> OwedView {
    OwedView {
        rule: run.rule,
        activator: run.activator@,
        relation: run.relation,
        bindings: h.bindings@,
        why: h.why@,
    }
}

/// The debts among the first `j` hits of `run`: each binding once, the
/// discharged ones left out.
pub open spec fn run_debts(run: PlanRun, j: int) -> Seq<OwedView>
    decreases j,
{
    if j <= 0 {
        seq![]
    } else {
        let prev = run_debts(run, j - 1);
        let h = run.hits@[j - 1];
        if first_bound(run.hits@, j - 1) && !h.discharged {
            prev.push(debt(run, h))
        } else {
            prev
        }
    }
}

/// Every run's debts, run after run.
pub open spec fn all_debts(runs: Seq<PlanRun>) -> Seq<OwedView>
    decreases runs.len(),
{
    if runs.len() == 0 {
        seq![]
    } else {
        all_debts(runs.drop_last()) + run_debts(runs.last(), runs.last().hits@.len() as int)
    }
}

fn same_arg(a: Arg, b: Arg) -> (r: bool)
    ensures
        r == (a == b),
{
    match (a, b) {
        (Arg::Sym(x), Arg::Sym(y)) => x == y,
        (Arg::Int(x), Arg::Int(y)) => x == y,
        (Arg::Fact(x), Arg::Fact(y)) => x == y,
        _ => false,
    }
}

fn same_bindings(a: &Vec<(u32, Arg)>, b: &Vec<(u32, Arg)>) -> (r: bool)
    ensures
        r == (a@ == b@),
{
    if a.len() != b.len() {
        return false;
    }
    let mut i: usize = 0;
    while i < a.len()
        invariant
            a@.len() == b@.len(),
            i <= a@.len(),
            forall|k: int| 0 <= k < i ==> a@[k] == b@[k],
        decreases a@.len() - i,
    {
        if a[i].0 != b[i].0 || !same_arg(a[i].1, b[i].1) {
            return false;
        }
        i = i + 1;
    }
    assert(a@ =~= b@);
    true
}

pub(crate) fn copy_ids(v: &Vec<u32>) -> (r: Vec<u32>)
    ensures
        r@ == v@,
{
    let mut out: Vec<u32> = Vec::new();
    let mut i: usize = 0;
    while i < v.len()
        invariant
            i <= v@.len(),
            out@ == v@.take(i as int),
        decreases v@.len() - i,
    {
        out.push(v[i]);
        assert(v@.take(i + 1) =~= v@.take(i as int).push(v@[i as int]));
        i = i + 1;
    }
    assert(v@.take(v@.len() as int) =~= v@);
    out
}

fn copy_bindings(v: &Vec<(u32, Arg)>) -> (r: Vec<(u32, Arg)>)
    ensures
        r@ == v@,
{
    let mut out: Vec<(u32, Arg)> = Vec::new();
    let mut i: usize = 0;
    while i < v.len()
        invariant
            i <= v@.len(),
            out@ == v@.take(i as int),
        decreases v@.len() - i,
    {
        out.push(v[i]);
        assert(v@.take(i + 1) =~= v@.take(i as int).push(v@[i as int]));
        i = i + 1;
    }
    assert(v@.take(v@.len() as int) =~= v@);
    out
}

/// Whether hit `j` of `hits` is the first with its bindings.
fn is_first_bound(hits: &Vec<Hit>, j: usize) -> (r: bool)
    requires
        j < hits@.len(),
    ensures
        r == first_bound(hits@, j as int),
{
    let mut k: usize = 0;
    while k < j
        invariant
            j < hits@.len(),
            k <= j,
            forall|q: int| 0 <= q < k ==> hits@[q].bindings@ != hits@[j as int].bindings@,
        decreases j - k,
    {
        if same_bindings(&hits[k].bindings, &hits[j].bindings) {
            return false;
        }
        k = k + 1;
    }
    true
}

/// The tally of a quiescent knowledge base, from its obligation plans'
/// runs in report order: per run, each distinct binding once (the first
/// hit that reached it), and only those no guard discharged.
pub fn tally(runs: &[PlanRun]) -> (o: Owes)
    ensures
        o.items() == all_debts(runs@),
{
    let mut instances: Vec<Owed> = Vec::new();
    let mut r: usize = 0;
    while r < runs.len()
        invariant
            r <= runs@.len(),
            instances@.map_values(|o: Owed| o@) == all_debts(runs@.take(r as int)),
        decreases runs@.len() - r,
    {
        let run = &runs[r];
        let ghost base = all_debts(runs@.take(r as int));
        let mut j: usize = 0;
        while j < run.hits.len()
            invariant
                *run == runs@[r as int],
                j <= run.hits@.len(),
                instances@.map_values(|o: Owed| o@) == base + run_debts(*run, j as int),
            decreases run.hits@.len() - j,
        {
            let ghost before = instances@.map_values(|o: Owed| o@);
            if is_first_bound(&run.hits, j) && !run.hits[j].discharged {
                let h = &run.hits[j];
                let owed = Owed {
                    rule: run.rule,
                    activator: copy_ids(&run.activator),
                    relation: run.relation,
                    bindings: copy_bindings(&h.bindings),
                    why: crate::text::owned(h.why.as_str()),
                };
                assert(owed@ == debt(*run, *h));
                instances.push(owed);
                assert(instances@.map_values(|o: Owed| o@) =~= before.push(debt(*run, *h)));
            }
            j = j + 1;
        }
        let ghost q = runs@.take(r + 1);
        assert(q.drop_last() =~= runs@.take(r as int));
        assert(q.last() == runs@[r as int]);
        r = r + 1;
    }
    assert(runs@.take(runs@.len() as int) =~= runs@);
    let o = Owes { instances };
    assert(o.items() == all_debts(runs@));
    o
}

proof fn lemma_run_debts_from(run: PlanRun, j: int)
    requires
        0 <= j <= run.hits@.len(),
    ensures
        forall|i: int|
            0 <= i < run_debts(run, j).len() ==> exists|k: int|
                0 <= k < j && #[trigger] run.hits@[k].bindings@ == (#[trigger] run_debts(run, j)[i]).bindings,
        forall|a: int, b: int|
            0 <= a < b < run_debts(run, j).len() ==> run_debts(run, j)[a].bindings != run_debts(run, j)[b].bindings,
    decreases j,
{
    if j > 0 {
        lemma_run_debts_from(run, j - 1);
        let prev = run_debts(run, j - 1);
        let cur = run_debts(run, j);
        if first_bound(run.hits@, j - 1) && !run.hits@[j - 1].discharged {
            assert(cur == prev.push(debt(run, run.hits@[j - 1])));
            assert forall|i: int| 0 <= i < cur.len() implies exists|k: int|
                0 <= k < j && #[trigger] run.hits@[k].bindings@ == (#[trigger] cur[i]).bindings by {
                if i < prev.len() {
                    let k = choose|k: int| 0 <= k < j - 1 && #[trigger] run.hits@[k].bindings@ == prev[i].bindings;
                    assert(run.hits@[k].bindings@ == cur[i].bindings);
                } else {
                    assert(run.hits@[j - 1].bindings@ == cur[i].bindings);
                }
            }
            assert forall|a: int, b: int| 0 <= a < b < cur.len() implies cur[a].bindings != cur[b].bindings by {
                if b == prev.len() {
                    let k = choose|k: int| 0 <= k < j - 1 && #[trigger] run.hits@[k].bindings@ == prev[a].bindings;
                    assert(run.hits@[k].bindings@ != run.hits@[j - 1].bindings@);
                } else {
                    assert(prev[a] == cur[a] && prev[b] == cur[b]);
                }
            }
        } else {
            assert forall|i: int| 0 <= i < cur.len() implies exists|k: int|
                0 <= k < j && #[trigger] run.hits@[k].bindings@ == (#[trigger] cur[i]).bindings by {
                let k = choose|k: int| 0 <= k < j - 1 && #[trigger] run.hits@[k].bindings@ == prev[i].bindings;
                assert(run.hits@[k].bindings@ == cur[i].bindings);
            }
        }
    }
}

/// Two disjuncts reaching the same bindings are one debt: within one
/// plan's run, no two debts share their bindings.
pub proof fn lemma_one_debt_per_binding(run: PlanRun)
    ensures
        forall|a: int, b: int|
            0 <= a < b < run_debts(run, run.hits@.len() as int).len() ==> run_debts(run, run.hits@.len() as int)[a].bindings
                != run_debts(run, run.hits@.len() as int)[b].bindings,
{
    lemma_run_debts_from(run, run.hits@.len() as int);
}

// ── Narration ────────────────────────────────────────────────────────

/// Every name an instance mentions is known, and every bound value renders.
pub open spec fn owed_ok(tbl: &FactTable, o: OwedView) -> bool {
    &&& o.rule < tbl.names@.len()
    &&& forall|k: int| 0 <= k < o.activator.len() ==> (#[trigger] o.activator[k]) < tbl.names@.len()
    &&& (o.relation matches Some(r) ==> r < tbl.names@.len())
    &&& forall|k: int|
        0 <= k < o.bindings.len() ==> (#[trigger] o.bindings[k]).0 < tbl.names@.len() && tbl.arg_ok(
            o.bindings[k].1,
            tbl.rows@.len() as int,
        )
}

/// One binding, as the `owe` event lists it: `[name, value]`.
pub open spec fn binding_text(tbl: &FactTable, p: (u32, Arg)) -> Seq<char> {
    seq!['['] + json_str(tbl.name(p.0)) + comma() + json_str(tbl.value_text(p.1)) + seq![']']
}

/// An `owe` event's fields: the rule, the activator's parameters, the
/// relation owed (empty for a bare `(open)`), the bindings and the report.
pub open spec fn owe_fields(tbl: &FactTable, o: OwedView) -> Seq<char> {
    let a = with_key(seq!['{'], "rule"@) + json_str(tbl.name(o.rule));
    let b = with_key(a, "activator"@) + list(o.activator.map_values(|s: u32| json_str(tbl.name(s))));
    let relation = match o.relation {
        Some(r) => tbl.name(r),
        None => Seq::<char>::empty(),
    };
    let c = with_key(b, "relation"@) + json_str(relation);
    let d = with_key(c, "bindings"@) + list(o.bindings.map_values(|p: (u32, Arg)| binding_text(tbl, p)));
    with_key(d, "why"@) + json_str(o.why)
}

/// The fields of one instance's `owe` event.
fn owe_line(tbl: &FactTable, o: &Owed) -> (l: Line)
    requires
        tbl.wf(),
        owed_ok(tbl, o@),
    ensures
        l.wf(),
        l@ == owe_fields(tbl, o@),
{
    let mut l = Line::new();
    l.str("rule", tbl.names[o.rule as usize].as_str());
    let mut names: Vec<String> = Vec::new();
    let mut i: usize = 0;
    while i < o.activator.len()
        invariant
            tbl.wf(),
            owed_ok(tbl, o@),
            i <= o.activator@.len(),
            names@.len() == i,
            forall|k: int| 0 <= k < i ==> (#[trigger] names@[k])@ == tbl.name(o.activator@[k]),
        decreases o.activator@.len() - i,
    {
        assert(o@.activator[i as int] < tbl.names@.len());
        names.push(crate::text::owned(tbl.names[o.activator[i] as usize].as_str()));
        i = i + 1;
    }
    let ghost acts = names@;
    l.owned_strs("activator", names);
    assert(crate::events::quoted_strings(acts) =~= o.activator@.map_values(|s: u32| json_str(tbl.name(s))));
    match o.relation {
        Some(r) => l.str("relation", tbl.names[r as usize].as_str()),
        None => {
            proof {
                reveal_strlit("");
            }
            l.str("relation", "");
        },
    }
    assert forall|i: int| 0 <= i < o.bindings@.len() implies (#[trigger] o.bindings@[i]).0 < tbl.names@.len()
        && tbl.arg_ok(o.bindings@[i].1, tbl.rows@.len() as int) by {
        assert(o@.bindings[i] == o.bindings@[i]);
    }
    let pairs = binding_pairs(tbl, o.bindings.as_slice());
    let ghost ps = pairs@;
    l.bindings("bindings", pairs);
    assert(crate::events::binding_items(ps) =~= o.bindings@.map_values(|p: (u32, Arg)| binding_text(tbl, p)));
    l.str("why", o.why.as_str());
    l
}

/// Narrate what is owed: one `owe` event per instance, in report order,
/// when recording.
pub fn narrate(events: &mut Events, tbl: &FactTable, owes: &Owes) -> (lines: Vec<String>)
    requires
        tbl.wf(),
        old(events).count() + owes.items().len() <= u64::MAX,
        forall|k: int| 0 <= k < owes.items().len() ==> owed_ok(tbl, #[trigger] owes.items()[k]),
    ensures
        final(events).is_on() == old(events).is_on(),
        final(events).level_of() == old(events).level_of(),
        old(events).is_on() ==> final(events).count() == old(events).count() + owes.items().len()
            && lines@.len() == owes.items().len() && forall|k: int|
            0 <= k < lines@.len() ==> (#[trigger] lines@[k])@ == event_text(
                "owe"@,
                (old(events).count() + k) as u64,
                owe_fields(tbl, owes.items()[k]),
            ),
        !old(events).is_on() ==> final(events).count() == old(events).count() && lines@.len() == 0,
{
    let mut lines: Vec<String> = Vec::new();
    if !events.on() {
        return lines;
    }
    let ghost start = events.count();
    let n = owes.instances.len();
    let mut i: usize = 0;
    while i < n
        invariant
            tbl.wf(),
            n == owes.items().len(),
            start + n <= u64::MAX,
            forall|k: int| 0 <= k < owes.items().len() ==> owed_ok(tbl, #[trigger] owes.items()[k]),
            i <= n,
            events.is_on(),
            events.level_of() == old(events).level_of(),
            start == old(events).count(),
            events.count() == start + i,
            lines@.len() == i,
            forall|k: int|
                0 <= k < i ==> (#[trigger] lines@[k])@ == event_text(
                    "owe"@,
                    (start + k) as u64,
                    owe_fields(tbl, owes.items()[k]),
                ),
        decreases n - i,
    {
        assert(owes.items()[i as int] == owes.instances@[i as int]@);
        let l = owe_line(tbl, &owes.instances[i]);
        let t = events.emit("owe", &l);
        match t {
            Some(text) => lines.push(text),
            None => {},
        }
        i = i + 1;
    }
    lines
}

} // verus!
