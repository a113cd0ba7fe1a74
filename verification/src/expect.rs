//! Checking a `:expect` against what the search actually answered.
//!
//! **Naming a relation asserts its complete extent.** If an expectation
//! mentions `pet-loc` at all, the `pet-loc` facts it lists are the model's
//! whole `pet-loc` extent; relations it never mentions are unconstrained.
//! Stored negatives are not closed: a listed `(not …)` is checked for
//! presence. Facts compare by content, as rendered s-expressions.
//!
//! `(model …)` expects one model, `(or …)` that many, `(false)` expects
//! `Contradiction`. An expectation is a claim about the *exhausted* answer:
//! a search that stopped early only bounds `k` from below, so a match there
//! is [`Outcome::NotChecked`], never a pass.
use vstd::prelude::*;

use crate::canon::{distinct_by_state, firsts, key_views};
use crate::text::{
    contains_text, dedup_runs, dedup_strings, digits, join_strings, join_with, lemma_push_contains, lemma_push_text,
    push_digits, set_sorted, sort_distinct, sort_strings, sorted_texts, str_eq, texts,
};

verus! {

/// Three outcomes, not two.
#[derive(Clone, Copy, PartialEq, Eq, Debug)]
pub enum Outcome {
    /// The claim holds, and the search that established it was exhausted.
    Held,
    /// The claim is false, and more searching would not rescue it.
    Failed,
    /// The search stopped early; the claim was neither confirmed nor refuted.
    NotChecked,
}

/// What the check found. `lines` is empty exactly when [`Outcome::Held`].
#[derive(Debug)]
pub struct Report {
    pub outcome: Outcome,
    /// One line per disagreement, in the order they were found.
    pub lines: Vec<String>,
}

impl Report {
    /// Held — and only held: `NotChecked` is not success.
    pub fn passed(&self) -> (b: bool)
        ensures
            b == (self.outcome == Outcome::Held),
    {
        match self.outcome {
            Outcome::Held => true,
            _ => false,
        }
    }
}


impl Report {
    fn ok() -> (r: Report)
        ensures
            r.outcome == Outcome::Held,
            r.lines@.len() == 0,
    {
        Report { outcome: Outcome::Held, lines: Vec::new() }
    }

    fn failed(lines: Vec<String>) -> (r: Report)
        ensures
            r.outcome == Outcome::Failed,
            r.lines@ == lines@,
    {
        Report { outcome: Outcome::Failed, lines }
    }

    fn unchecked(lines: Vec<String>) -> (r: Report)
        ensures
            r.outcome == Outcome::NotChecked,
            r.lines@ == lines@,
    {
        Report { outcome: Outcome::NotChecked, lines }
    }

    /// The verdict-shaped claims: held only if the search was exhausted.
    fn ok_if_exhausted(exhausted: bool, what: &str) -> (r: Report)
        ensures
            exhausted ==> r.outcome == Outcome::Held && r.lines@.len() == 0,
            !exhausted ==> r.outcome == Outcome::NotChecked && texts_of(r.lines@) == seq![unexhausted_line(what@)],
    {
        if exhausted {
            return Report::ok();
        }
        let mut line = String::new();
        line.append(what);
        line.append(UNEXHAUSTED);
        let mut lines: Vec<String> = Vec::new();
        lines.push(line);
        assert(texts_of(lines@) =~= seq![unexhausted_line(what@)]);
        Report::unchecked(lines)
    }
}

/// The views of a vector of lines.
pub open spec fn texts_of(v: Seq<String>) -> Seq<Seq<char>> {
    crate::text::texts(v)
}

pub const UNEXHAUSTED: &'static str = " matches, but the search was not exhausted — k is a lower bound, so nothing here is established. Either the run stopped at -n, or the frontier is still alive at --max-set-size.";

/// What a match from a stopped search reports.
pub open spec fn unexhausted_line(what: Seq<char>) -> Seq<char> {
    what + UNEXHAUSTED@
}


// ── What the check reads ─────────────────────────────────────────────

/// One fact an expectation lists, as the loader rendered it.
pub struct Listed {
    pub relation: String,
    pub rendered: String,
    /// A listed `(not …)`: checked for presence, never closed.
    pub negated: bool,
}

/// One `(model …)` of an expectation.
pub struct Model {
    pub facts: Vec<Listed>,
}

/// A `:expect`, as the loader validated it.
pub struct Expectation {
    /// `(false)`: the answer is `Contradiction`.
    pub contradiction: bool,
    /// The listed models: one per `(model …)` of an `(or …)`.
    pub models: Vec<Model>,
    /// The verdict the expectation names.
    pub verdict_name: String,
}

/// The primary provenance record of a fact.
pub enum Provenance {
    /// A rule firing: the rule, and its premises rendered.
    Rule { rule: Option<String>, premises: Vec<String> },
    /// A stated fact, and the source it came from.
    Source(Option<String>),
    /// A hypothesis, and the branch that made it.
    Hypothesis(Option<u64>),
    Rejected,
}

/// A fact of a model's positive extent of one relation.
pub struct Held {
    pub rendered: String,
    /// Its primary provenance, when it has one.
    pub why: Option<Provenance>,
}

/// One relation's positive extent in a model.
pub struct Extent {
    pub relation: String,
    pub facts: Vec<Held>,
}

/// A model the search found, as the check reads it.
pub struct Actual {
    /// Its canonical state: two branches that reached the same model have
    /// the same one.
    pub state: Vec<u32>,
    /// Every fact, rendered, `(not …)` facts included.
    pub all: Vec<String>,
    /// The positive extents, one per relation.
    pub extents: Vec<Extent>,
    /// The query's `:goal` answered in the model: one row of
    /// `(variable, value)` cells per answer.
    pub goal_rows: Vec<Vec<(String, String)>>,
}

/// What the search concluded.
pub enum Verdict {
    Contradiction,
    Solution(Actual),
    Ambiguity(Vec<Actual>),
}

/// A run's answer to a query.
pub enum Answer {
    Verdict(Verdict),
    /// The run did not finish.
    Aborted { reason: String },
}

impl Verdict {
    pub open spec fn name(&self) -> Seq<char> {
        match self {
            Verdict::Contradiction => "Contradiction"@,
            Verdict::Solution(_) => "Solution"@,
            Verdict::Ambiguity(_) => "Ambiguity"@,
        }
    }

    pub fn as_str(&self) -> (s: &'static str)
        ensures
            s@ == self.name(),
    {
        match self {
            Verdict::Contradiction => "Contradiction",
            Verdict::Solution(_) => "Solution",
            Verdict::Ambiguity(_) => "Ambiguity",
        }
    }
}

/// Why a fact is in the model, one line: the rule and premises that derived
/// it, or where it was given or hypothesised.
pub open spec fn provenance_text(p: Option<Provenance>) -> Option<Seq<char>> {
    match p {
        None => None,
        Some(Provenance::Rule { rule, premises }) => match rule {
            None => None,
            Some(r) => if premises@.len() == 0 {
                Some("written back by "@ + r@)
            } else {
                Some("derived by "@ + r@ + " from "@ + crate::text::join_with(texts_of(premises@), " "@))
            },
        },
        Some(Provenance::Source(s)) => match s {
            Some(s) => Some("given by "@ + s@),
            None => Some("in the program's own text"@),
        },
        Some(Provenance::Hypothesis(b)) => match b {
            Some(b) => Some("hypothesised in branch "@ + digits(b as nat)),
            None => Some("hypothesised"@),
        },
        Some(Provenance::Rejected) => Some("recorded as rejected"@),
    }
}

fn provenance(p: &Option<Provenance>) -> (r: Option<String>)
    ensures
        match r {
            Some(t) => provenance_text(*p) == Some(t@),
            None => provenance_text(*p) is None,
        },
{
    match p {
        None => None,
        Some(Provenance::Rule { rule, premises }) => match rule {
            None => None,
            Some(r) => {
                let mut out = String::new();
                if premises.len() == 0 {
                    out.append("written back by ");
                    out.append(r.as_str());
                } else {
                    out.append("derived by ");
                    out.append(r.as_str());
                    out.append(" from ");
                    let joined = crate::text::join_strings(premises, " ");
                    out.append(joined.as_str());
                }
                Some(out)
            },
        },
        Some(Provenance::Source(s)) => {
            let mut out = String::new();
            match s {
                Some(s) => {
                    out.append("given by ");
                    out.append(s.as_str());
                },
                None => {
                    out.append("in the program's own text");
                },
            }
            Some(out)
        },
        Some(Provenance::Hypothesis(b)) => {
            let mut out = String::new();
            match b {
                Some(b) => {
                    out.append("hypothesised in branch ");
                    push_digits(&mut out, *b);
                },
                None => {
                    out.append("hypothesised");
                },
            }
            Some(out)
        },
        Some(Provenance::Rejected) => {
            let mut out = String::new();
            out.append("recorded as rejected");
            Some(out)
        },
    }
}


// ── One expectation against one model ────────────────────────────────

impl Actual {
    /// One extent per relation, and each rendering once within an extent.
    pub open spec fn wf(&self) -> bool {
        &&& forall|k1: int, k2: int|
            0 <= k1 < self.extents@.len() && 0 <= k2 < self.extents@.len() && k1 != k2
                ==> (#[trigger] self.extents@[k1]).relation@ != (#[trigger] self.extents@[k2]).relation@
        &&& forall|k: int, j1: int, j2: int|
            0 <= k < self.extents@.len() && 0 <= j1 < self.extents@[k].facts@.len() && 0 <= j2
                < self.extents@[k].facts@.len() && j1 != j2 ==> (#[trigger] self.extents@[k].facts@[j1]).rendered@
                != (#[trigger] self.extents@[k].facts@[j2]).rendered@
    }
}

/// The renderings the first `k` listed facts give relation `rel` positively.
pub open spec fn listed_upto(fs: Seq<Listed>, rel: Seq<char>, k: nat) -> Set<Seq<char>>
    decreases k,
{
    if k == 0 || k > fs.len() {
        Set::empty()
    } else {
        let s = listed_upto(fs, rel, (k - 1) as nat);
        if !fs[k - 1].negated && fs[k - 1].relation@ == rel {
            s.insert(fs[k - 1].rendered@)
        } else {
            s
        }
    }
}

/// The relations the first `k` listed facts name positively.
pub open spec fn relations_upto(fs: Seq<Listed>, k: nat) -> Set<Seq<char>>
    decreases k,
{
    if k == 0 || k > fs.len() {
        Set::empty()
    } else {
        let s = relations_upto(fs, (k - 1) as nat);
        if !fs[k - 1].negated {
            s.insert(fs[k - 1].relation@)
        } else {
            s
        }
    }
}

/// The listed `(not …)` facts among the first `k`, in listing order.
pub open spec fn negatives_upto(fs: Seq<Listed>, k: nat) -> Seq<Seq<char>>
    decreases k,
{
    if k == 0 || k > fs.len() {
        Seq::empty()
    } else {
        let s = negatives_upto(fs, (k - 1) as nat);
        if fs[k - 1].negated {
            s.push(fs[k - 1].rendered@)
        } else {
            s
        }
    }
}

/// What `want` lists of relation `rel`: its whole expected extent.
pub open spec fn listed(want: &Model, rel: Seq<char>) -> Set<Seq<char>> {
    listed_upto(want.facts@, rel, want.facts@.len())
}

/// The relations `want` names, and so closes.
pub open spec fn named_relations(want: &Model) -> Set<Seq<char>> {
    relations_upto(want.facts@, want.facts@.len())
}

/// The renderings of the facts of `hs`.
pub open spec fn renders(hs: Seq<Held>) -> Set<Seq<char>> {
    Set::new(|f: Seq<char>| exists|j: int| 0 <= j < hs.len() && (#[trigger] hs[j]).rendered@ == f)
}

/// The model's positive extent of relation `rel`, if it has one.
pub open spec fn extent_of(a: &Actual, rel: Seq<char>) -> Option<Extent> {
    if exists|k: int| 0 <= k < a.extents@.len() && (#[trigger] a.extents@[k]).relation@ == rel {
        Some(a.extents@[choose|k: int| 0 <= k < a.extents@.len() && (#[trigger] a.extents@[k]).relation@ == rel])
    } else {
        None
    }
}

/// The renderings of the model's `rel` facts.
pub open spec fn got(a: &Actual, rel: Seq<char>) -> Set<Seq<char>> {
    match extent_of(a, rel) {
        Some(e) => renders(e.facts@),
        None => Set::empty(),
    }
}

/// The provenance of the model's `rel` fact rendered `f`.
pub open spec fn held_why(a: &Actual, rel: Seq<char>, f: Seq<char>) -> Option<Provenance> {
    match extent_of(a, rel) {
        Some(e) => e.facts@[choose|j: int| 0 <= j < e.facts@.len() && (#[trigger] e.facts@[j]).rendered@ == f].why,
        None => None,
    }
}

pub open spec fn missing_line(rel: Seq<char>, f: Seq<char>) -> Seq<char> {
    rel + ": expected "@ + f + ", and the model has no such fact"@
}

pub open spec fn surplus_line(rel: Seq<char>, f: Seq<char>) -> Seq<char> {
    rel + ": the model also has "@ + f + ", which the expectation does not list (naming a relation closes it)"@
}

pub open spec fn why_line(f: Seq<char>, how: Seq<char>) -> Seq<char> {
    "  …"@ + f + " is "@ + how
}

pub open spec fn absent_line(f: Seq<char>) -> Seq<char> {
    "expected "@ + f + ", and the model does not carry it"@
}

/// The lines for surplus facts `fs` of relation `rel`: each, followed, when
/// `why`, by the derivation that put it there.
pub open spec fn surplus_lines(a: &Actual, rel: Seq<char>, fs: Seq<Seq<char>>, why: bool) -> Seq<Seq<char>>
    decreases fs.len(),
{
    if fs.len() == 0 {
        Seq::empty()
    } else {
        let f = fs.last();
        let prev = surplus_lines(a, rel, fs.drop_last(), why).push(surplus_line(rel, f));
        match provenance_text(held_why(a, rel, f)) {
            Some(how) => if why {
                prev.push(why_line(f, how))
            } else {
                prev
            },
            None => prev,
        }
    }
}

/// Relation `rel`'s disagreements: each listed fact the model lacks, then
/// each model fact the expectation does not list, both sorted.
pub open spec fn relation_lines(want: &Model, a: &Actual, rel: Seq<char>, why: bool) -> Seq<Seq<char>> {
    set_sorted(listed(want, rel).difference(got(a, rel))).map_values(|f: Seq<char>| missing_line(rel, f))
        + surplus_lines(a, rel, set_sorted(got(a, rel).difference(listed(want, rel))), why)
}

/// The disagreements of relations `rs`, in order.
pub open spec fn relations_lines(want: &Model, a: &Actual, rs: Seq<Seq<char>>, why: bool) -> Seq<Seq<char>>
    decreases rs.len(),
{
    if rs.len() == 0 {
        Seq::empty()
    } else {
        relations_lines(want, a, rs.drop_last(), why) + relation_lines(want, a, rs.last(), why)
    }
}

/// The lines for listed negatives `ns` the model does not carry.
pub open spec fn absent_lines(a: &Actual, ns: Seq<Seq<char>>) -> Seq<Seq<char>>
    decreases ns.len(),
{
    if ns.len() == 0 {
        Seq::empty()
    } else {
        let prev = absent_lines(a, ns.drop_last());
        if texts(a.all@).contains(ns.last()) {
            prev
        } else {
            prev.push(absent_line(ns.last()))
        }
    }
}

/// Why model `a` does not satisfy expectation `want`; empty when it does.
/// Every relation `want` names must have exactly the listed extent, and
/// every listed `(not …)` must be present.
pub open spec fn disagreement_lines(want: &Model, a: &Actual, why: bool) -> Seq<Seq<char>> {
    relations_lines(want, a, set_sorted(named_relations(want)), why) + absent_lines(
        a,
        sorted_texts(negatives_upto(want.facts@, want.facts@.len())),
    )
}

fn find_extent(a: &Actual, rel: &str) -> (r: Option<usize>)
    requires
        a.wf(),
    ensures
        r matches Some(k) ==> k < a.extents@.len() && a.extents@[k as int].relation@ == rel@ && extent_of(a, rel@)
            == Some(a.extents@[k as int]),
        r is None ==> extent_of(a, rel@) is None,
{
    let mut k: usize = 0;
    while k < a.extents.len()
        invariant
            a.wf(),
            k <= a.extents@.len(),
            forall|q: int| 0 <= q < k ==> (#[trigger] a.extents@[q]).relation@ != rel@,
        decreases a.extents@.len() - k,
    {
        if str_eq(a.extents[k].relation.as_str(), rel) {
            proof {
                let c = choose|q: int| 0 <= q < a.extents@.len() && (#[trigger] a.extents@[q]).relation@ == rel@;
                if c != k {
                    assert(a.extents@[c].relation@ != a.extents@[k as int].relation@);
                }
            }
            return Some(k);
        }
        k = k + 1;
    }
    None
}

/// Does some fact of `hs` render as `f`? Its index, if so.
fn find_held(hs: &Vec<Held>, f: &str) -> (r: Option<usize>)
    ensures
        r matches Some(j) ==> j < hs@.len() && hs@[j as int].rendered@ == f@,
        r is None ==> !renders(hs@).contains(f@),
{
    let mut j: usize = 0;
    while j < hs.len()
        invariant
            j <= hs@.len(),
            forall|q: int| 0 <= q < j ==> (#[trigger] hs@[q]).rendered@ != f@,
        decreases hs@.len() - j,
    {
        if str_eq(hs[j].rendered.as_str(), f) {
            return Some(j);
        }
        j = j + 1;
    }
    None
}

fn join3(a: &str, b: &str, c: &str) -> (r: String)
    ensures
        r@ == a@ + b@ + c@,
{
    let mut out = String::new();
    out.append(a);
    out.append(b);
    out.append(c);
    out
}

fn line3(a: &str, b: &str, c: &str, d: &str) -> (r: String)
    ensures
        r@ == a@ + b@ + c@ + d@,
{
    let mut out = String::new();
    out.append(a);
    out.append(b);
    out.append(c);
    out.append(d);
    out
}

/// Relation `rel`'s disagreements between `want` and `a`.
fn relation_disagreements(want: &Model, a: &Actual, rel: &str, why: bool) -> (lines: Vec<String>)
    requires
        a.wf(),
    ensures
        texts(lines@) == relation_lines(want, a, rel@, why),
{
    let ghost fs = want.facts@;
    let mut ws: Vec<String> = Vec::new();
    let mut k: usize = 0;
    while k < want.facts.len()
        invariant
            k <= fs.len(),
            fs == want.facts@,
            texts(ws@).no_duplicates(),
            texts(ws@).to_set() == listed_upto(fs, rel@, k as nat),
        decreases fs.len() - k,
    {
        let lf = &want.facts[k];
        if !lf.negated && str_eq(lf.relation.as_str(), rel) && !contains_text(&ws, lf.rendered.as_str()) {
            let ghost before = texts(ws@);
            ws.push(lf.rendered.clone());
            proof {
                assert(texts(ws@) =~= before.push(lf.rendered@));
                lemma_push_text(before, lf.rendered@);
            }
        } else {
            proof {
                if !lf.negated && lf.relation@ == rel@ {
                    assert(texts(ws@).to_set().contains(lf.rendered@));
                    assert(texts(ws@).to_set().insert(lf.rendered@) =~= texts(ws@).to_set());
                }
            }
        }
        k = k + 1;
    }
    let ext = find_extent(a, rel);
    let ghost gs = got(a, rel@);
    let ghost ls = listed(want, rel@);
    let mut miss: Vec<String> = Vec::new();
    let mut i: usize = 0;
    while i < ws.len()
        invariant
            i <= ws@.len(),
            texts(ws@).no_duplicates(),
            texts(ws@).to_set() == ls,
            texts(miss@).no_duplicates(),
            forall|x: Seq<char>| #![trigger texts(miss@).contains(x)] #![trigger texts(ws@).take(i as int).contains(x)]
                texts(miss@).contains(x) <==> (texts(ws@).take(i as int).contains(x) && !gs.contains(x)),
            ext matches Some(e) ==> e < a.extents@.len() && extent_of(a, rel@) == Some(a.extents@[e as int]),
            ext is None ==> extent_of(a, rel@) is None,
            gs == got(a, rel@),
        decreases ws@.len() - i,
    {
        let w = &ws[i];
        let present = match ext {
            Some(e) => find_held(&a.extents[e].facts, w.as_str()).is_some(),
            None => false,
        };
        proof {
            assert(texts(ws@)[i as int] == w@);
            if let Some(e) = ext {
                if present {
                    let j = choose|j: int| 0 <= j < a.extents@[e as int].facts@.len() && (#[trigger] a.extents@[e as int].facts@[j]).rendered@ == w@;
                    assert(renders(a.extents@[e as int].facts@).contains(w@));
                }
            }
            assert(present == gs.contains(w@));
            assert(texts(ws@).take(i + 1) =~= texts(ws@).take(i as int).push(w@));
        }
        if !present {
            let ghost before = texts(miss@);
            miss.push(w.clone());
            proof {
                assert(texts(miss@) =~= before.push(w@));
                lemma_push_text(before, w@);
                assert(!texts(ws@).take(i as int).contains(w@)) by {
                    if texts(ws@).take(i as int).contains(w@) {
                        let q = choose|q: int| 0 <= q < i && texts(ws@).take(i as int)[q] == w@;
                        assert(texts(ws@)[q] == texts(ws@)[i as int]);
                    }
                }
                assert forall|x: Seq<char>| #![trigger texts(miss@).contains(x)] #![trigger texts(ws@).take(i + 1).contains(x)]
                    texts(miss@).contains(x) <==> (texts(ws@).take(i + 1).contains(x) && !gs.contains(x)) by {
                    lemma_push_contains(texts(ws@).take(i as int), w@, x);
                    lemma_push_contains(before, w@, x);
                    assert(texts(miss@).contains(x) == before.push(w@).contains(x));
                    assert(texts(ws@).take(i + 1).contains(x) == texts(ws@).take(i as int).push(w@).contains(x));
                    assert(before.contains(x) == (texts(ws@).take(i as int).contains(x) && !gs.contains(x)));
                }
            }
        } else {
            proof {
                assert forall|x: Seq<char>| #![trigger texts(miss@).contains(x)] #![trigger texts(ws@).take(i + 1).contains(x)]
                    texts(miss@).contains(x) <==> (texts(ws@).take(i + 1).contains(x) && !gs.contains(x)) by {
                    lemma_push_contains(texts(ws@).take(i as int), w@, x);
                }
            }
        }
        i = i + 1;
    }
    proof {
        assert(texts(ws@).take(ws@.len() as int) =~= texts(ws@));
        assert(texts(miss@).to_set() =~= ls.difference(gs)) by {
            assert forall|x: Seq<char>| texts(miss@).to_set().contains(x) <==> ls.difference(gs).contains(x) by {
                assert(texts(ws@).to_set().contains(x) == texts(ws@).contains(x));
            }
        }
    }
    let mut sur: Vec<String> = Vec::new();
    if let Some(e) = ext {
        let hs = &a.extents[e].facts;
        let mut j: usize = 0;
        while j < hs.len()
            invariant
                j <= hs@.len(),
                a.wf(),
                e < a.extents@.len(),
                *hs == a.extents@[e as int].facts,
                extent_of(a, rel@) == Some(a.extents@[e as int]),
                gs == got(a, rel@),
                texts(ws@).to_set() == ls,
                texts(sur@).no_duplicates(),
                forall|x: Seq<char>| texts(sur@).contains(x) ==> exists|q: int| 0 <= q < j && (#[trigger] hs@[q]).rendered@ == x,
                forall|x: Seq<char>| #![trigger texts(sur@).contains(x)] #![trigger renders(hs@.take(j as int)).contains(x)]
                    texts(sur@).contains(x) <==> (renders(hs@.take(j as int)).contains(x) && !ls.contains(x)),
            decreases hs@.len() - j,
        {
            let h = &hs[j];
            let listed_here = contains_text(&ws, h.rendered.as_str());
            proof {
                assert(listed_here == ls.contains(h.rendered@)) by {
                    assert(texts(ws@).to_set().contains(h.rendered@) == texts(ws@).contains(h.rendered@));
                }
                assert forall|x: Seq<char>| renders(hs@.take(j + 1)).contains(x) <==> (renders(hs@.take(j as int)).contains(x) || x == h.rendered@) by {
                    if renders(hs@.take(j + 1)).contains(x) {
                        let q = choose|q: int| 0 <= q < j + 1 && (#[trigger] hs@.take(j + 1)[q]).rendered@ == x;
                        if q < j {
                            assert(hs@.take(j as int)[q] == hs@[q]);
                        }
                    }
                    if renders(hs@.take(j as int)).contains(x) {
                        let q = choose|q: int| 0 <= q < j && (#[trigger] hs@.take(j as int)[q]).rendered@ == x;
                        assert(hs@.take(j + 1)[q] == hs@[q]);
                    }
                    if x == h.rendered@ {
                        assert(hs@.take(j + 1)[j as int] == hs@[j as int]);
                    }
                }
            }
            if listed_here {
                proof {
                    assert forall|x: Seq<char>| texts(sur@).contains(x) implies exists|q: int| 0 <= q < j + 1 && (#[trigger] hs@[q]).rendered@ == x by {
                        let q = choose|q: int| 0 <= q < j && (#[trigger] hs@[q]).rendered@ == x;
                    }
                }
            }
            if !listed_here {
                let ghost before = texts(sur@);
                sur.push(h.rendered.clone());
                proof {
                    assert(texts(sur@) =~= before.push(h.rendered@));
                    assert(!before.contains(h.rendered@)) by {
                        if before.contains(h.rendered@) {
                            let q = choose|q: int| 0 <= q < j && (#[trigger] hs@[q]).rendered@ == h.rendered@;
                            assert(a.extents@[e as int].facts@[q].rendered@ != a.extents@[e as int].facts@[j as int].rendered@);
                        }
                    }
                    lemma_push_text(before, h.rendered@);
                    assert forall|x: Seq<char>| texts(sur@).contains(x) implies exists|q: int| 0 <= q < j + 1 && (#[trigger] hs@[q]).rendered@ == x by {
                        lemma_push_contains(before, h.rendered@, x);
                        if x != h.rendered@ {
                            assert(before.contains(x));
                        } else {
                            assert(hs@[j as int].rendered@ == x);
                        }
                    }
                    assert forall|x: Seq<char>| #![trigger texts(sur@).contains(x)] #![trigger renders(hs@.take(j + 1)).contains(x)]
                        texts(sur@).contains(x) <==> (renders(hs@.take(j + 1)).contains(x) && !ls.contains(x)) by {
                        lemma_push_contains(before, h.rendered@, x);
                    }
                }
            }
            j = j + 1;
        }
        proof {
            assert(hs@.take(hs@.len() as int) =~= hs@);
            assert(gs == renders(hs@));
        }
    }
    proof {
        assert(texts(sur@).to_set() =~= gs.difference(ls)) by {
            assert forall|x: Seq<char>| texts(sur@).to_set().contains(x) <==> gs.difference(ls).contains(x) by {
                if ext is None {
                    assert(texts(sur@).len() == 0);
                }
            }
        }
    }
    let miss_sorted = sort_distinct(&miss);
    let sur_sorted = sort_distinct(&sur);
    let mut lines: Vec<String> = Vec::new();
    let mut i: usize = 0;
    while i < miss_sorted.len()
        invariant
            i <= miss_sorted@.len(),
            texts(lines@) == texts(miss_sorted@).take(i as int).map_values(|f: Seq<char>| missing_line(rel@, f)),
        decreases miss_sorted@.len() - i,
    {
        let line = line3(rel, ": expected ", miss_sorted[i].as_str(), ", and the model has no such fact");
        let ghost before = texts(lines@);
        lines.push(line);
        proof {
            assert(texts(lines@) =~= before.push(line@));
            assert(texts(miss_sorted@).take(i + 1) =~= texts(miss_sorted@).take(i as int).push(miss_sorted@[i as int]@));
            assert(texts(lines@) =~= texts(miss_sorted@).take(i + 1).map_values(|f: Seq<char>| missing_line(rel@, f)));
        }
        i = i + 1;
    }
    proof {
        assert(texts(miss_sorted@).take(miss_sorted@.len() as int) =~= texts(miss_sorted@));
    }
    let ghost head = texts(lines@);
    let mut i: usize = 0;
    while i < sur_sorted.len()
        invariant
            i <= sur_sorted@.len(),
            a.wf(),
            ext matches Some(e) ==> e < a.extents@.len() && extent_of(a, rel@) == Some(a.extents@[e as int]),
            ext is None ==> extent_of(a, rel@) is None,
            texts(sur_sorted@).to_set() == got(a, rel@).difference(listed(want, rel@)),
            texts(lines@) == head + surplus_lines(a, rel@, texts(sur_sorted@).take(i as int), why),
        decreases sur_sorted@.len() - i,
    {
        let f = &sur_sorted[i];
        let ghost fv = f@;
        let ghost before = texts(lines@);
        assert(texts(sur_sorted@)[i as int] == fv);
        assert(texts(sur_sorted@).take(i + 1) =~= texts(sur_sorted@).take(i as int).push(fv));
        assert(texts(sur_sorted@).take(i + 1).drop_last() =~= texts(sur_sorted@).take(i as int));
        assert(texts(sur_sorted@).take(i + 1).last() == fv);
        let l1 = line3(rel, ": the model also has ", f.as_str(), ", which the expectation does not list (naming a relation closes it)");
        assert(l1@ == surplus_line(rel@, fv));
        lines.push(l1);
        assert(texts(lines@) =~= before.push(surplus_line(rel@, fv)));
        if why {
            proof {
                assert(texts(sur_sorted@).to_set().contains(fv));
                assert(got(a, rel@).contains(fv));
            }
            let e = ext.unwrap();
            let hs = &a.extents[e].facts;
            match find_held(hs, f.as_str()) {
                Some(j) => {
                    proof {
                        let c = choose|q: int| 0 <= q < hs@.len() && (#[trigger] hs@[q]).rendered@ == fv;
                        if c != j {
                            assert(a.extents@[e as int].facts@[c].rendered@ != a.extents@[e as int].facts@[j as int].rendered@);
                        }
                        assert(held_why(a, rel@, fv) == hs@[j as int].why);
                    }
                    match provenance(&hs[j].why) {
                        Some(how) => {
                            let l2 = line3("  …", f.as_str(), " is ", how.as_str());
                            let ghost mid = texts(lines@);
                            lines.push(l2);
                            assert(texts(lines@) =~= mid.push(why_line(fv, how@)));
                        },
                        None => {},
                    }
                },
                None => {
                    proof {
                        assert(renders(hs@).contains(fv));
                    }
                },
            }
        }
        proof {
            assert(texts(lines@) =~= head + surplus_lines(a, rel@, texts(sur_sorted@).take(i + 1), why));
        }
        i = i + 1;
    }
    proof {
        assert(texts(sur_sorted@).take(sur_sorted@.len() as int) =~= texts(sur_sorted@));
    }
    lines
}


/// Why model `a` does not satisfy expectation `want`; empty when it does.
/// With `why`, a surplus fact is followed by the derivation that put it
/// there.
fn disagreements(want: &Model, a: &Actual, why: bool) -> (lines: Vec<String>)
    requires
        a.wf(),
    ensures
        texts(lines@) == disagreement_lines(want, a, why),
{
    let ghost fs = want.facts@;
    let mut rels: Vec<String> = Vec::new();
    let mut negs: Vec<String> = Vec::new();
    let mut k: usize = 0;
    while k < want.facts.len()
        invariant
            k <= fs.len(),
            fs == want.facts@,
            texts(rels@).no_duplicates(),
            texts(rels@).to_set() == relations_upto(fs, k as nat),
            texts(negs@) == negatives_upto(fs, k as nat),
        decreases fs.len() - k,
    {
        let lf = &want.facts[k];
        if lf.negated {
            let ghost before = texts(negs@);
            negs.push(lf.rendered.clone());
            assert(texts(negs@) =~= before.push(lf.rendered@));
        } else if !contains_text(&rels, lf.relation.as_str()) {
            let ghost before = texts(rels@);
            rels.push(lf.relation.clone());
            proof {
                assert(texts(rels@) =~= before.push(lf.relation@));
                lemma_push_text(before, lf.relation@);
            }
        } else {
            proof {
                assert(texts(rels@).to_set().contains(lf.relation@));
                assert(texts(rels@).to_set().insert(lf.relation@) =~= texts(rels@).to_set());
            }
        }
        k = k + 1;
    }
    let rels = sort_distinct(&rels);
    let negs = sort_strings(&negs);
    let mut lines: Vec<String> = Vec::new();
    let mut i: usize = 0;
    while i < rels.len()
        invariant
            a.wf(),
            i <= rels@.len(),
            texts(lines@) == relations_lines(want, a, texts(rels@).take(i as int), why),
        decreases rels@.len() - i,
    {
        let mut more = relation_disagreements(want, a, rels[i].as_str(), why);
        let ghost before = texts(lines@);
        let ghost extra = texts(more@);
        lines.append(&mut more);
        proof {
            assert(texts(lines@) =~= before + extra);
            assert(texts(rels@).take(i + 1).drop_last() =~= texts(rels@).take(i as int));
            assert(texts(rels@).take(i + 1).last() == rels@[i as int]@);
        }
        i = i + 1;
    }
    assert(texts(rels@).take(rels@.len() as int) =~= texts(rels@));
    let ghost head = texts(lines@);
    let mut i: usize = 0;
    while i < negs.len()
        invariant
            i <= negs@.len(),
            texts(lines@) == head + absent_lines(a, texts(negs@).take(i as int)),
        decreases negs@.len() - i,
    {
        let f = &negs[i];
        assert(texts(negs@).take(i + 1).drop_last() =~= texts(negs@).take(i as int));
        assert(texts(negs@).take(i + 1).last() == f@);
        if !contains_text(&a.all, f.as_str()) {
            let ghost before = texts(lines@);
            lines.push(join3("expected ", f.as_str(), ", and the model does not carry it"));
            assert(texts(lines@) =~= before.push(absent_line(f@)));
        }
        i = i + 1;
    }
    assert(texts(negs@).take(negs@.len() as int) =~= texts(negs@));
    lines
}


// ── A model as the answer to the query's `:goal` ─────────────────────

/// One answer row's cells, `?var=value`.
pub open spec fn cell_texts(row: Seq<(String, String)>) -> Seq<Seq<char>> {
    Seq::new(row.len(), |c: int| "?"@ + row[c].0@ + "="@ + row[c].1@)
}

/// One answer row: its cells sorted, space-separated.
pub open spec fn row_text(row: Seq<(String, String)>) -> Seq<char> {
    join_with(sorted_texts(cell_texts(row)), " "@)
}

/// A model projected through the query's `:goal`: its rows sorted, each
/// once, `; `-separated — sorted because the row order is not observable.
pub open spec fn goal_text(a: &Actual) -> Seq<char> {
    if a.goal_rows@.len() == 0 {
        "the :goal matches nothing in it"@
    } else {
        join_with(
            dedup_runs(sorted_texts(Seq::new(a.goal_rows@.len(), |r: int| row_text(a.goal_rows@[r]@)))),
            "; "@,
        )
    }
}

fn goal_row(a: &Actual) -> (r: String)
    ensures
        r@ == goal_text(a),
{
    if a.goal_rows.len() == 0 {
        let mut out = String::new();
        out.append("the :goal matches nothing in it");
        return out;
    }
    let mut shown: Vec<String> = Vec::new();
    let mut r: usize = 0;
    while r < a.goal_rows.len()
        invariant
            r <= a.goal_rows@.len(),
            texts(shown@) == Seq::new(r as nat, |q: int| row_text(a.goal_rows@[q]@)),
        decreases a.goal_rows@.len() - r,
    {
        let row = &a.goal_rows[r];
        let mut cells: Vec<String> = Vec::new();
        let mut c: usize = 0;
        while c < row.len()
            invariant
                c <= row@.len(),
                texts(cells@) == cell_texts(row@).take(c as int),
            decreases row@.len() - c,
        {
            let mut cell = String::new();
            cell.append("?");
            assert(cell@ =~= "?"@);
            cell.append(row[c].0.as_str());
            cell.append("=");
            cell.append(row[c].1.as_str());
            assert(cell@ == cell_texts(row@)[c as int]);
            let ghost before = texts(cells@);
            cells.push(cell);
            assert(texts(cells@) =~= before.push(cell_texts(row@)[c as int]));
            assert(texts(cells@) =~= cell_texts(row@).take(c + 1));
            c = c + 1;
        }
        assert(cell_texts(row@).take(row@.len() as int) =~= cell_texts(row@));
        let sorted = sort_strings(&cells);
        let line = join_strings(&sorted, " ");
        assert(line@ == row_text(a.goal_rows@[r as int]@));
        let ghost before = texts(shown@);
        shown.push(line);
        assert(texts(shown@) =~= before.push(line@));
        assert(texts(shown@) =~= Seq::new((r + 1) as nat, |q: int| row_text(a.goal_rows@[q]@)));
        r = r + 1;
    }
    let sorted = sort_strings(&shown);
    let deduped = dedup_strings(sorted);
    let out = join_strings(&deduped, "; ");
    assert(texts(shown@) =~= Seq::new(a.goal_rows@.len(), |q: int| row_text(a.goal_rows@[q]@)));
    out
}

// ── Matching expectations to models ──────────────────────────────────

/// `assign` sends each of the first `k` expectations to a distinct model it
/// fits (`fits[x][j]`: expectation `x` is satisfied by model `j`).
pub open spec fn assigns(fits: Seq<Vec<bool>>, k: int, assign: Seq<int>) -> bool {
    &&& assign.len() == k
    &&& forall|x: int| 0 <= x < k ==> 0 <= #[trigger] assign[x] < fits[x]@.len() && fits[x]@[assign[x]]
    &&& forall|x: int, y: int| 0 <= x < k && 0 <= y < k && x != y ==> #[trigger] assign[x] != #[trigger] assign[y]
}

/// The first `k` expectations can each be paired with a model of their own.
pub open spec fn matchable(fits: Seq<Vec<bool>>, k: int) -> bool {
    exists|assign: Seq<int>| assigns(fits, k, assign)
}

/// Every row of `fits` has `m` columns.
pub open spec fn rows_of(fits: Seq<Vec<bool>>, m: int) -> bool {
    forall|x: int| 0 <= x < fits.len() ==> (#[trigger] fits[x])@.len() == m
}

/// Each taken model is taken by an expectation that fits it.
spec fn valid_taken(fits: Seq<Vec<bool>>, taken: Seq<Option<usize>>) -> bool {
    forall|j: int|
        0 <= j < taken.len() && (#[trigger] taken[j]) is Some ==> taken[j]->Some_0 < fits.len()
            && fits[taken[j]->Some_0 as int]@[j]
}

/// No expectation holds two models.
spec fn injective_taken(taken: Seq<Option<usize>>) -> bool {
    forall|j1: int, j2: int|
        0 <= j1 < taken.len() && 0 <= j2 < taken.len() && j1 != j2 && (#[trigger] taken[j1]) is Some
            ==> taken[j1] != #[trigger] taken[j2]
}

/// Every model expectation `y` fits has been visited.
spec fn closed_in(fits: Seq<Vec<bool>>, seen: Seq<bool>, y: int) -> bool {
    forall|j: int| 0 <= j < seen.len() && #[trigger] fits[y]@[j] ==> seen[j]
}

/// Every visited model is taken, by an expectation on the current path
/// (`anc`, or `cur`) or by one whose models have all been visited.
spec fn seen_ok(fits: Seq<Vec<bool>>, taken: Seq<Option<usize>>, seen: Seq<bool>, anc: Set<int>, cur: int) -> bool {
    forall|j: int|
        0 <= j < seen.len() && #[trigger] seen[j] ==> taken[j] is Some && (anc.contains(taken[j]->Some_0 as int)
            || taken[j]->Some_0 == cur || closed_in(fits, seen, taken[j]->Some_0 as int))
}

spec fn unseen(s: Seq<bool>) -> nat
    decreases s.len(),
{
    if s.len() == 0 {
        0
    } else {
        unseen(s.drop_last()) + if s.last() {
            0nat
        } else {
            1nat
        }
    }
}

proof fn lemma_unseen_shrinks(s1: Seq<bool>, s2: Seq<bool>, j: int)
    requires
        s1.len() == s2.len(),
        forall|k: int| 0 <= k < s1.len() && #[trigger] s1[k] ==> s2[k],
        0 <= j < s1.len(),
        !s1[j],
        s2[j],
    ensures
        unseen(s2) < unseen(s1),
    decreases s1.len(),
{
    lemma_unseen_le(s1.drop_last(), s2.drop_last());
    if j < s1.len() - 1 {
        lemma_unseen_shrinks(s1.drop_last(), s2.drop_last(), j);
    }
}

proof fn lemma_unseen_le(s1: Seq<bool>, s2: Seq<bool>)
    requires
        s1.len() == s2.len(),
        forall|k: int| 0 <= k < s1.len() && #[trigger] s1[k] ==> s2[k],
    ensures
        unseen(s2) <= unseen(s1),
    decreases s1.len(),
{
    if s1.len() > 0 {
        lemma_unseen_le(s1.drop_last(), s2.drop_last());
    }
}

/// Kuhn's augmenting path from expectation `i`. On success the models along
/// `path` change hands — `i` takes the first, each previous holder the next,
/// the last was free — and nothing else moves; on failure nothing moves and
/// every model `i` fits has been visited.
fn augment(
    i: usize,
    fits: &Vec<Vec<bool>>,
    taken_by: &mut Vec<Option<usize>>,
    seen: &mut Vec<bool>,
    Ghost(anc): Ghost<Set<int>>,
) -> (r: (bool, Ghost<Seq<usize>>))
    requires
        i < fits@.len(),
        rows_of(fits@, old(taken_by)@.len() as int),
        old(seen)@.len() == old(taken_by)@.len(),
        valid_taken(fits@, old(taken_by)@),
        seen_ok(fits@, old(taken_by)@, old(seen)@, anc, i as int),
    ensures
        final(taken_by)@.len() == old(taken_by)@.len(),
        final(seen)@.len() == old(seen)@.len(),
        forall|k: int| 0 <= k < old(seen)@.len() && #[trigger] old(seen)@[k] ==> final(seen)@[k],
        valid_taken(fits@, final(taken_by)@),
        !r.0 ==> final(taken_by)@ == old(taken_by)@ && closed_in(fits@, final(seen)@, i as int) && seen_ok(
            fits@,
            final(taken_by)@,
            final(seen)@,
            anc,
            -1,
        ),
        r.0 ==> is_path(r.1@, i, old(taken_by)@, final(taken_by)@, old(seen)@, final(seen)@),
    decreases unseen(old(seen)@),
{
    let m = taken_by.len();
    let ghost taken0 = taken_by@;
    let ghost seen0 = seen@;
    let mut j: usize = 0;
    while j < m
        invariant
            i < fits@.len(),
            m == taken_by@.len(),
            rows_of(fits@, m as int),
            j <= m,
            taken_by@ == taken0,
            taken0 == old(taken_by)@,
            seen0 == old(seen)@,
            seen@.len() == m,
            seen0.len() == m,
            forall|k: int| 0 <= k < m && #[trigger] seen0[k] ==> seen@[k],
            valid_taken(fits@, taken_by@),
            seen_ok(fits@, taken_by@, seen@, anc, i as int),
            forall|k: int| 0 <= k < j && #[trigger] fits@[i as int]@[k] ==> seen@[k],
        decreases m - j,
    {
        if !fits[i][j] || seen[j] {
            j = j + 1;
            continue;
        }
        let ghost seen1 = seen@;
        seen[j] = true;
        let ghost marked = seen@;
        assert(marked == seen1.update(j as int, true));
        match taken_by[j] {
            None => {
                taken_by[j] = Some(i);
                let ghost path = seq![j];
                proof {
                    assert(path.len() == 1 && path[0] == j);
                    assert(!seen0[j as int]);
                    assert forall|k: int| 0 <= k < m && #[trigger] taken_by@[k] is Some implies taken_by@[k]->Some_0 < fits@.len()
                        && fits@[taken_by@[k]->Some_0 as int]@[k] by {
                        if k != j {
                            assert(taken_by@[k] == taken0[k]);
                        }
                    }
                    assert forall|x: int| 0 <= x < m && !path.contains(x as usize) implies #[trigger] taken_by@[x] == taken0[x] by {
                        if x == j {
                            assert(path[0] == x as usize);
                        }
                    }
                }
                return (true, Ghost(path));
            },
            Some(other) => {
                proof {
                    assert(taken0[j as int] == Some(other));
                    assert(other < fits@.len());
                    lemma_unseen_shrinks(seen0, seen@, j as int);
                    assert forall|k: int| 0 <= k < m && #[trigger] seen@[k] implies taken_by@[k] is Some && (anc.insert(i as int).contains(taken_by@[k]->Some_0 as int)
                        || taken_by@[k]->Some_0 == other || closed_in(fits@, seen@, taken_by@[k]->Some_0 as int)) by {
                        if k != j {
                            assert(seen1[k]);
                            if closed_in(fits@, seen1, taken_by@[k]->Some_0 as int) {
                                let y = taken_by@[k]->Some_0 as int;
                                assert forall|q: int| 0 <= q < m && #[trigger] fits@[y]@[q] implies seen@[q] by {
                                    assert(seen1[q]);
                                }
                            }
                        }
                    }
                }
                let (found, Ghost(sub)) = augment(other, fits, taken_by, seen, Ghost(anc.insert(i as int)));
                proof {
                    assert forall|k: int| 0 <= k < m && #[trigger] seen0[k] implies seen@[k] by {
                        assert(seen1[k]);
                        assert(marked[k]);
                    }
                    assert(marked[j as int]);
                    assert(seen@[j as int]);
                }
                if found {
                    let ghost taken1 = taken_by@;
                    taken_by[j] = Some(i);
                    let ghost path = seq![j] + sub;
                    proof {
                        lemma_extend_path(sub, path, i, j, other, taken0, taken1, taken_by@, seen0, seen1, seen@, fits@);
                        assert forall|k: int| 0 <= k < m && #[trigger] taken_by@[k] is Some implies taken_by@[k]->Some_0 < fits@.len()
                            && fits@[taken_by@[k]->Some_0 as int]@[k] by {
                            if k != j {
                                assert(taken_by@[k] == taken1[k]);
                            }
                        }
                    }
                    return (true, Ghost(path));
                }
                proof {
                    assert forall|k: int| 0 <= k < m && #[trigger] seen@[k] implies taken_by@[k] is Some && (anc.contains(taken_by@[k]->Some_0 as int)
                        || taken_by@[k]->Some_0 == i || closed_in(fits@, seen@, taken_by@[k]->Some_0 as int)) by {
                        if anc.insert(i as int).contains(taken_by@[k]->Some_0 as int) {
                            if taken_by@[k]->Some_0 != i {
                                assert(anc.contains(taken_by@[k]->Some_0 as int));
                            }
                        }
                    }
                    assert forall|k: int| 0 <= k < j + 1 && #[trigger] fits@[i as int]@[k] implies seen@[k] by {
                        if k < j {
                            assert(seen1[k]);
                            assert(marked[k]);
                        }
                    }
                }
            },
        }
        j = j + 1;
    }
    proof {
        assert forall|k: int| 0 <= k < m && #[trigger] seen@[k] implies taken_by@[k] is Some && (anc.contains(taken_by@[k]->Some_0 as int)
            || taken_by@[k]->Some_0 == -1 || closed_in(fits@, seen@, taken_by@[k]->Some_0 as int)) by {
        }
    }
    (false, Ghost(Seq::empty()))
}

/// `path` is an augmenting path from `i`: visited afresh, each model once;
/// `i` now holds the first, each model's new holder is the previous one's
/// old holder, the last was free, and no other model changed hands.
spec fn is_path(
    path: Seq<usize>,
    i: usize,
    taken0: Seq<Option<usize>>,
    taken1: Seq<Option<usize>>,
    seen0: Seq<bool>,
    seen1: Seq<bool>,
) -> bool {
    &&& path.len() >= 1
    &&& forall|t: int| 0 <= t < path.len() ==> (#[trigger] path[t]) < taken0.len() && !seen0[path[t] as int] && seen1[path[t] as int]
    &&& path.no_duplicates()
    &&& taken1.len() == taken0.len()
    &&& taken1[path[0] as int] == Some(i)
    &&& forall|t: int| 0 <= t < path.len() - 1 ==> taken0[#[trigger] path[t] as int] is Some && taken1[path[t + 1] as int] == taken0[path[t] as int]
    &&& taken0[path[path.len() - 1] as int] is None
    &&& forall|x: int| 0 <= x < taken0.len() && !path.contains(x as usize) ==> #[trigger] taken1[x] == taken0[x]
}

proof fn lemma_extend_path(
    sub: Seq<usize>,
    path: Seq<usize>,
    i: usize,
    j: usize,
    other: usize,
    taken0: Seq<Option<usize>>,
    taken1: Seq<Option<usize>>,
    taken2: Seq<Option<usize>>,
    seen0: Seq<bool>,
    seen1: Seq<bool>,
    seen2: Seq<bool>,
    fits: Seq<Vec<bool>>,
)
    requires
        path == seq![j] + sub,
        j < taken0.len(),
        seen1.len() == taken0.len(),
        seen0.len() == taken0.len(),
        !seen0[j as int],
        !seen1[j as int],
        forall|k: int| 0 <= k < seen0.len() && #[trigger] seen0[k] ==> seen1[k],
        taken0[j as int] == Some(other),
        is_path(sub, other, taken0, taken1, seen1.update(j as int, true), seen2),
        forall|k: int| 0 <= k < seen1.len() && #[trigger] seen1.update(j as int, true)[k] ==> seen2[k],
        taken2 == taken1.update(j as int, Some(i)),
    ensures
        is_path(path, i, taken0, taken2, seen0, seen2),
{
    let s1 = seen1.update(j as int, true);
    assert forall|t: int| 0 <= t < sub.len() implies #[trigger] sub[t] != j by {
        assert(!s1[sub[t] as int]);
    }
    assert(!sub.contains(j)) by {
        if sub.contains(j) {
            let t = choose|t: int| 0 <= t < sub.len() && sub[t] == j;
            assert(sub[t] != j);
        }
    }
    assert forall|t: int| 0 <= t < path.len() implies (#[trigger] path[t]) < taken0.len() && !seen0[path[t] as int] && seen2[path[t] as int] by {
        if t == 0 {
            assert(path[0] == j);
            assert(s1[j as int]);
        } else {
            assert(path[t] == sub[t - 1]);
            assert(!s1[sub[t - 1] as int]);
            if seen0[sub[t - 1] as int] {
                assert(seen1[sub[t - 1] as int]);
                assert(s1[sub[t - 1] as int]);
            }
        }
    }
    assert(path.no_duplicates()) by {
        assert forall|a: int, b: int| 0 <= a < path.len() && 0 <= b < path.len() && a != b implies path[a] != path[b] by {
            if a == 0 {
                assert(path[b] == sub[b - 1]);
            } else if b == 0 {
                assert(path[a] == sub[a - 1]);
            } else {
                assert(path[a] == sub[a - 1] && path[b] == sub[b - 1]);
            }
        }
    }
    assert(taken2[path[0] as int] == Some(i));
    assert forall|t: int| 0 <= t < path.len() - 1 implies taken0[#[trigger] path[t] as int] is Some && taken2[path[t + 1] as int] == taken0[path[t] as int] by {
        if t == 0 {
            assert(path[1] == sub[0]);
            assert(sub[0] != j);
            assert(taken2[sub[0] as int] == taken1[sub[0] as int]);
        } else {
            assert(path[t] == sub[t - 1]);
            assert(path[t + 1] == sub[t]);
            assert(sub[t] != j);
        }
    }
    assert(path[path.len() - 1] == sub[sub.len() - 1]);
    assert forall|x: int| 0 <= x < taken0.len() && !path.contains(x as usize) implies #[trigger] taken2[x] == taken0[x] by {
        assert(x != j) by {
            if x == j {
                assert(path[0] == x as usize);
            }
        }
        assert(!sub.contains(x as usize)) by {
            if sub.contains(x as usize) {
                let t = choose|t: int| 0 <= t < sub.len() && sub[t] == x as usize;
                assert(path[t + 1] == x as usize);
            }
        }
    }
}

proof fn lemma_path_step(
    fits: Seq<Vec<bool>>,
    path: Seq<usize>,
    i: usize,
    taken0: Seq<Option<usize>>,
    taken1: Seq<Option<usize>>,
    seen0: Seq<bool>,
    seen1: Seq<bool>,
    holder0: Seq<int>,
) -> (holder1: Seq<int>)
    requires
        is_path(path, i, taken0, taken1, seen0, seen1),
        taken0.len() <= usize::MAX,
        injective_taken(taken0),
        forall|j: int| 0 <= j < taken0.len() && (#[trigger] taken0[j]) is Some ==> taken0[j]->Some_0 < i,
        holds_all(taken0, holder0, i as int),
    ensures
        injective_taken(taken1),
        forall|j: int| 0 <= j < taken1.len() && (#[trigger] taken1[j]) is Some ==> taken1[j]->Some_0 < i + 1,
        holds_all(taken1, holder1, i + 1),
{
    let n = path.len();
    // Where the model at `j` came from: its old holder's model.
    assert forall|j: int| 0 <= j < taken1.len() && (#[trigger] taken1[j]) is Some implies taken1[j]->Some_0 < i + 1 by {
        if path.contains(j as usize) {
            let t = choose|t: int| 0 <= t < n && path[t] == j as usize;
            if t > 0 {
                assert(taken1[path[t] as int] == taken0[path[t - 1] as int]);
            }
        }
    }
    let holder1 = Seq::new((i + 1) as nat, |x: int|
        if x == i {
            path[0] as int
        } else if path.contains(holder0[x] as usize) {
            path[(choose|t: int| 0 <= t < n && path[t] == holder0[x] as usize) + 1] as int
        } else {
            holder0[x]
        }
    );
    assert forall|x: int| 0 <= x < i + 1 implies 0 <= #[trigger] holder1[x] < taken1.len() && taken1[holder1[x]] == Some(x as usize) by {
        if x == i {
            assert(taken1[path[0] as int] == Some(i));
        } else {
            let j = holder0[x];
            assert(taken0[j] == Some(x as usize));
            if path.contains(j as usize) {
                let t = choose|t: int| 0 <= t < n && path[t] == j as usize;
                if t == n - 1 {
                    assert(taken0[path[n - 1] as int] is None);
                }
                assert(taken1[path[t + 1] as int] == taken0[path[t] as int]);
            } else {
                assert(taken1[j] == taken0[j]);
            }
        }
    }
    assert forall|j1: int, j2: int|
        0 <= j1 < taken1.len() && 0 <= j2 < taken1.len() && j1 != j2 && (#[trigger] taken1[j1]) is Some
            implies taken1[j1] != #[trigger] taken1[j2] by {
        if taken1[j1] == taken1[j2] {
            let v = taken1[j1]->Some_0;
            let in1 = path.contains(j1 as usize);
            let in2 = path.contains(j2 as usize);
            let t1 = choose|t: int| 0 <= t < n && path[t] == j1 as usize;
            let t2 = choose|t: int| 0 <= t < n && path[t] == j2 as usize;
            if in1 && t1 == 0 {
                assert(v == i);
                if in2 {
                    assert(t2 != 0);
                    assert(taken1[path[t2] as int] == taken0[path[t2 - 1] as int]);
                } else {
                    assert(taken1[j2] == taken0[j2]);
                }
            } else if in2 && t2 == 0 {
                assert(v == i);
                if in1 {
                    assert(taken1[path[t1] as int] == taken0[path[t1 - 1] as int]);
                } else {
                    assert(taken1[j1] == taken0[j1]);
                }
            } else {
                let s1 = if in1 { path[t1 - 1] as int } else { j1 };
                let s2 = if in2 { path[t2 - 1] as int } else { j2 };
                if in1 {
                    assert(taken1[path[t1] as int] == taken0[path[t1 - 1] as int]);
                } else {
                    assert(taken1[j1] == taken0[j1]);
                }
                if in2 {
                    assert(taken1[path[t2] as int] == taken0[path[t2 - 1] as int]);
                } else {
                    assert(taken1[j2] == taken0[j2]);
                }
                assert(taken0[s1] == taken0[s2]);
                assert(s1 == s2);
                if in1 && in2 {
                    assert(path[t1 - 1] == path[t2 - 1]);
                    assert(t1 == t2);
                } else if in1 {
                    assert(path.contains(j2 as usize)) by {
                        assert(path[t1 - 1] == j2 as usize);
                    }
                } else if in2 {
                    assert(path.contains(j1 as usize)) by {
                        assert(path[t2 - 1] == j1 as usize);
                    }
                }
            }
        }
    }
    holder1
}

/// Every one of the first `k` expectations holds the model `holder` names.
spec fn holds_all(taken: Seq<Option<usize>>, holder: Seq<int>, k: int) -> bool {
    &&& holder.len() == k
    &&& forall|x: int| 0 <= x < k ==> 0 <= #[trigger] holder[x] < taken.len() && taken[holder[x]] == Some(x as usize)
}

/// Hall's condition fails: when the search from `i` visits every model
/// reachable along alternating paths without freeing one, expectation `i`
/// and the holders of the visited models — one more than those models —
/// fit only visited models, so the first `i + 1` cannot all be matched.
proof fn lemma_no_match(fits: Seq<Vec<bool>>, m: int, taken: Seq<Option<usize>>, seen: Seq<bool>, i: usize)
    requires
        rows_of(fits, m),
        i < fits.len(),
        taken.len() == m,
        seen.len() == m,
        valid_taken(fits, taken),
        injective_taken(taken),
        forall|j: int| 0 <= j < m && (#[trigger] taken[j]) is Some ==> taken[j]->Some_0 < i,
        closed_in(fits, seen, i as int),
        seen_ok(fits, taken, seen, Set::empty(), -1),
    ensures
        !matchable(fits, i + 1),
{
    let k1 = i + 1;
    if matchable(fits, k1) {
        let a = choose|a: Seq<int>| assigns(fits, k1, a);
        let sv = Set::new(|j: int| 0 <= j < m && seen[j]);
        let tk = |j: int| taken[j]->Some_0 as int;
        let tv = sv.map(tk);
        let lv = tv.insert(i as int);
        vstd::set_lib::lemma_int_range(0, m);
        assert(sv.subset_of(vstd::set_lib::set_int_range(0, m)));
        vstd::set_lib::lemma_len_subset(sv, vstd::set_lib::set_int_range(0, m));
        assert(vstd::relations::injective_on(tk, sv)) by {
            assert forall|j1: int, j2: int| sv.contains(j1) && sv.contains(j2) && #[trigger] tk(j1) == #[trigger] tk(j2) implies j1 == j2 by {
                assert(seen[j1] && seen[j2]);
                assert(taken[j1] is Some && taken[j2] is Some);
                if j1 != j2 {
                    assert(taken[j1] != taken[j2]);
                }
            }
        }
        vstd::set_lib::lemma_map_size(sv, tv, tk);
        assert(!tv.contains(i as int)) by {
            if tv.contains(i as int) {
                let j = choose|j: int| sv.contains(j) && tk(j) == i as int;
                assert(taken[j] is Some);
            }
        }
        assert(lv.len() == sv.len() + 1);
        let af = |x: int| a[x];
        assert forall|x: int| lv.contains(x) implies 0 <= x < i + 1 && closed_in(fits, seen, x) by {
            if x != i as int {
                let j = choose|j: int| sv.contains(j) && tk(j) == x;
                assert(seen[j]);
                assert(taken[j] is Some);
            }
        }
        assert(vstd::relations::injective_on(af, lv)) by {
            assert forall|x1: int, x2: int| lv.contains(x1) && lv.contains(x2) && #[trigger] af(x1) == #[trigger] af(x2) implies x1 == x2 by {
                if x1 != x2 {
                    assert(a[x1] != a[x2]);
                }
            }
        }
        let av = lv.map(af);
        vstd::set_lib::lemma_map_size(lv, av, af);
        assert(av.subset_of(sv)) by {
            assert forall|y: int| av.contains(y) implies sv.contains(y) by {
                let x = choose|x: int| lv.contains(x) && af(x) == y;
                assert(0 <= a[x] < m && fits[x]@[a[x]]);
                assert(closed_in(fits, seen, x));
                assert(seen[a[x]]);
            }
        }
        vstd::set_lib::lemma_len_subset(av, sv);
    }
}

/// Kuhn's augmenting-path algorithm over `fits` (`m` models): `None` when
/// every expectation can be given a model of its own, else the first
/// expectation that cannot — greedy pairing is wrong, since pairing two
/// expectations the first way that fits can strand a third.
pub fn first_unmatched(fits: &Vec<Vec<bool>>, m: usize) -> (r: Option<usize>)
    requires
        rows_of(fits@, m as int),
    ensures
        r is None <==> matchable(fits@, fits@.len() as int),
        r matches Some(i) ==> i < fits@.len() && matchable(fits@, i as int) && !matchable(fits@, i + 1),
        r matches Some(i) ==> forall|k: int| i < k <= fits@.len() ==> !matchable(fits@, k),
{
    let n = fits.len();
    let mut taken_by: Vec<Option<usize>> = Vec::new();
    let mut j: usize = 0;
    while j < m
        invariant
            j <= m,
            taken_by@.len() == j,
            forall|k: int| 0 <= k < j ==> (#[trigger] taken_by@[k]) is None,
        decreases m - j,
    {
        taken_by.push(None);
        j = j + 1;
    }
    let mut i: usize = 0;
    let ghost mut holder: Seq<int> = Seq::empty();
    while i < n
        invariant
            i <= n,
            n == fits@.len(),
            rows_of(fits@, m as int),
            taken_by@.len() == m,
            valid_taken(fits@, taken_by@),
            injective_taken(taken_by@),
            forall|j: int| 0 <= j < m && (#[trigger] taken_by@[j]) is Some ==> taken_by@[j]->Some_0 < i,
            holds_all(taken_by@, holder, i as int),
        decreases n - i,
    {
        let mut seen: Vec<bool> = Vec::new();
        let mut k: usize = 0;
        while k < m
            invariant
                k <= m,
                seen@.len() == k,
                forall|q: int| 0 <= q < k ==> !(#[trigger] seen@[q]),
            decreases m - k,
        {
            seen.push(false);
            k = k + 1;
        }
        let ghost taken0 = taken_by@;
        let ghost seen0 = seen@;
        let (found, Ghost(path)) = augment(i, fits, &mut taken_by, &mut seen, Ghost(Set::empty()));
        if !found {
            proof {
                lemma_no_match(fits@, m as int, taken_by@, seen@, i);
                lemma_matchable_now(fits@, taken_by@, m as int, i as int, holder);
                assert forall|k: int| i < k <= fits@.len() implies !matchable(fits@, k) by {
                    if matchable(fits@, k) {
                        lemma_matchable_prefix(fits@, k, i + 1);
                    }
                }
            }
            return Some(i);
        }
        proof {
            holder = lemma_path_step(fits@, path, i, taken0, taken_by@, seen0, seen@, holder);
        }
        i = i + 1;
    }
    proof {
        lemma_matchable_now(fits@, taken_by@, m as int, n as int, holder);
    }
    None
}

/// A matching that every one of the first `k` expectations takes part in
/// pairs them off.
proof fn lemma_matchable_now(fits: Seq<Vec<bool>>, taken: Seq<Option<usize>>, m: int, k: int, holder: Seq<int>)
    requires
        0 <= k <= fits.len(),
        fits.len() <= usize::MAX,
        taken.len() == m,
        rows_of(fits, m),
        valid_taken(fits, taken),
        holds_all(taken, holder, k),
    ensures
        matchable(fits, k),
{
    assert forall|x: int| 0 <= x < k implies 0 <= #[trigger] holder[x] < fits[x]@.len() && fits[x]@[holder[x]] by {
        assert(taken[holder[x]] == Some(x as usize));
    }
    assert forall|x: int, y: int| 0 <= x < k && 0 <= y < k && x != y implies #[trigger] holder[x] != #[trigger] holder[y] by {
        assert(taken[holder[x]] == Some(x as usize));
        assert(taken[holder[y]] == Some(y as usize));
    }
    assert(assigns(fits, k, holder));
}

/// A pairing of a prefix restricts to a pairing of any shorter prefix.
proof fn lemma_matchable_prefix(fits: Seq<Vec<bool>>, k: int, k2: int)
    requires
        matchable(fits, k),
        0 <= k2 <= k,
    ensures
        matchable(fits, k2),
{
    let a = choose|a: Seq<int>| assigns(fits, k, a);
    let b = a.take(k2);
    assert forall|x: int| 0 <= x < k2 implies 0 <= #[trigger] b[x] < fits[x]@.len() && fits[x]@[b[x]] by {
        assert(b[x] == a[x]);
    }
    assert forall|x: int, y: int| 0 <= x < k2 && 0 <= y < k2 && x != y implies #[trigger] b[x] != #[trigger] b[y] by {
        assert(b[x] == a[x] && b[y] == a[y]);
    }
    assert(assigns(fits, k2, b));
}


// ── Models as the check sees them ────────────────────────────────────

/// The models a verdict carries, in the order the search found them.
pub open spec fn models_of(v: &Verdict) -> Seq<Actual> {
    match v {
        Verdict::Contradiction => Seq::empty(),
        Verdict::Solution(s) => seq![*s],
        Verdict::Ambiguity(bs) => bs@,
    }
}

/// Every model of the verdict is well formed.
pub open spec fn verdict_wf(v: &Verdict) -> bool {
    forall|j: int| 0 <= j < models_of(v).len() ==> (#[trigger] models_of(v)[j]).wf()
}

fn model_count(v: &Verdict) -> (n: usize)
    ensures
        n == models_of(v).len(),
{
    match v {
        Verdict::Contradiction => 0,
        Verdict::Solution(_) => 1,
        Verdict::Ambiguity(bs) => bs.len(),
    }
}

fn model_at(v: &Verdict, j: usize) -> (r: &Actual)
    requires
        j < models_of(v).len(),
    ensures
        *r == models_of(v)[j as int],
{
    match v {
        Verdict::Contradiction => vstd::pervasive::unreached(),
        Verdict::Solution(s) => s,
        Verdict::Ambiguity(bs) => &bs[j],
    }
}

/// The index of the first model of each canonical state, in order: two
/// branches that reached the same model are one model.
pub open spec fn first_of_each(ms: Seq<Actual>) -> Seq<int> {
    firsts(ms.map_values(|a: Actual| a.state@))
}

/// The distinct models among the branches, first occurrence first.
pub open spec fn distinct_models(ms: Seq<Actual>) -> Seq<Actual> {
    first_of_each(ms).map_values(|j: int| ms[j])
}

/// The models that `picks` selects from the verdict.
pub open spec fn picked(v: &Verdict, picks: Seq<usize>) -> Seq<Actual> {
    picks.map_values(|j: usize| models_of(v)[j as int])
}

/// Which models of the verdict are distinct: the first of each canonical
/// state.
fn distinct_picks(v: &Verdict) -> (picks: Vec<usize>)
    ensures
        picks@.map_values(|j: usize| j as int) == first_of_each(models_of(v)),
        forall|t: int| 0 <= t < picks@.len() ==> (#[trigger] picks@[t]) < models_of(v).len(),
{
    let ghost ms = models_of(v);
    let n = model_count(v);
    let mut states: Vec<Vec<u32>> = Vec::new();
    let mut j: usize = 0;
    while j < n
        invariant
            n == ms.len(),
            ms == models_of(v),
            j <= n,
            key_views(states@) == ms.take(j as int).map_values(|a: Actual| a.state@),
        decreases n - j,
    {
        let a = model_at(v, j);
        let mut key: Vec<u32> = Vec::new();
        let mut k: usize = 0;
        while k < a.state.len()
            invariant
                k <= a.state@.len(),
                key@ == a.state@.take(k as int),
            decreases a.state@.len() - k,
        {
            key.push(a.state[k]);
            assert(a.state@.take(k + 1) =~= a.state@.take(k as int).push(a.state@[k as int]));
            k = k + 1;
        }
        assert(a.state@.take(a.state@.len() as int) =~= a.state@);
        let ghost before = states@;
        states.push(key);
        assert(key_views(states@) =~= key_views(before).push(a.state@));
        assert(ms.take(j + 1).map_values(|a: Actual| a.state@) =~= ms.take(j as int).map_values(|a: Actual| a.state@).push(ms[j as int].state@));
        j = j + 1;
    }
    assert(ms.take(n as int) =~= ms);
    distinct_by_state(&states)
}

/// Model `a` satisfies expectation `want`.
pub open spec fn fits(want: &Model, a: &Actual) -> bool {
    disagreement_lines(want, a, false).len() == 0
}

/// How far model `a` is from expectation `want`: its count of disagreements.
pub open spec fn misfit(want: &Model, a: &Actual) -> nat {
    disagreement_lines(want, a, false).len()
}

/// `assign` gives each of the first `k` expectations a model of its own
/// that satisfies it.
pub open spec fn pairing(wanted: Seq<Model>, actual: Seq<Actual>, k: int, assign: Seq<int>) -> bool {
    &&& assign.len() == k
    &&& forall|x: int| 0 <= x < k ==> 0 <= #[trigger] assign[x] < actual.len() && fits(&wanted[x], &actual[assign[x]])
    &&& forall|x: int, y: int| 0 <= x < k && 0 <= y < k && x != y ==> #[trigger] assign[x] != #[trigger] assign[y]
}

/// The first `k` expectations can each be given a model of its own.
pub open spec fn pairs_off(wanted: Seq<Model>, actual: Seq<Actual>, k: int) -> bool {
    exists|assign: Seq<int>| pairing(wanted, actual, k, assign)
}

/// When not every expectation can be given a model of its own: the first
/// that cannot.
pub open spec fn first_unpaired(wanted: Seq<Model>, actual: Seq<Actual>) -> int {
    choose|i: int| 0 <= i < wanted.len() && #[trigger] pairs_off(wanted, actual, i) && !pairs_off(wanted, actual, i + 1)
}

/// The first of the models with the fewest disagreements with `want`,
/// among the first `k`.
pub open spec fn closest_upto(want: &Model, actual: Seq<Actual>, k: int) -> int
    decreases k,
{
    if k <= 1 {
        0
    } else {
        let b = closest_upto(want, actual, k - 1);
        if misfit(want, &actual[k - 1]) < misfit(want, &actual[b]) {
            k - 1
        } else {
            b
        }
    }
}

/// What names expectation `i` of `n` in a report: nothing when there is
/// only one.
pub open spec fn which_prefix(i: int, n: int) -> Seq<char> {
    if n == 1 {
        Seq::empty()
    } else {
        "expectation "@ + digits((i + 1) as nat) + " of "@ + digits(n as nat) + ": "@
    }
}

pub open spec fn not_distinct_line(which: Seq<char>, n: int) -> Seq<char> {
    which + "matches a model that another expectation also claims — the "@ + digits(n as nat)
        + " expectations are not distinct"@
}

/// The report on unpaired expectation `i`: its disagreements with the
/// model closest to it, explained; or, when it fits that model, that its
/// model was needed by another.
pub open spec fn unpaired_lines(wanted: Seq<Model>, actual: Seq<Actual>, i: int) -> Seq<Seq<char>> {
    let n = wanted.len() as int;
    let which = which_prefix(i, n);
    let ex = disagreement_lines(&wanted[i], &actual[closest_upto(&wanted[i], actual, actual.len() as int)], true);
    if ex.len() == 0 {
        seq![not_distinct_line(which, n)]
    } else {
        ex.map_values(|l: Seq<char>| which + l)
    }
}

proof fn lemma_pairs_prefix(wanted: Seq<Model>, actual: Seq<Actual>, k: int, k2: int)
    requires
        pairs_off(wanted, actual, k),
        0 <= k2 <= k,
    ensures
        pairs_off(wanted, actual, k2),
{
    let a = choose|a: Seq<int>| pairing(wanted, actual, k, a);
    let b = a.take(k2);
    assert forall|x: int| 0 <= x < k2 implies 0 <= #[trigger] b[x] < actual.len() && fits(&wanted[x], &actual[b[x]]) by {
        assert(b[x] == a[x]);
    }
    assert forall|x: int, y: int| 0 <= x < k2 && 0 <= y < k2 && x != y implies #[trigger] b[x] != #[trigger] b[y] by {
        assert(b[x] == a[x] && b[y] == a[y]);
    }
    assert(pairing(wanted, actual, k2, b));
}

/// A matrix of fits is the fit relation itself.
proof fn lemma_matchable_pairs(fm: Seq<Vec<bool>>, wanted: Seq<Model>, actual: Seq<Actual>, k: int)
    requires
        fm.len() == wanted.len(),
        rows_of(fm, actual.len() as int),
        forall|x: int, t: int| 0 <= x < fm.len() && 0 <= t < actual.len() ==> (#[trigger] fm[x]@[t]) == fits(&wanted[x], &actual[t]),
        0 <= k <= wanted.len(),
    ensures
        matchable(fm, k) == pairs_off(wanted, actual, k),
{
    if matchable(fm, k) {
        let a = choose|a: Seq<int>| assigns(fm, k, a);
        assert forall|x: int| 0 <= x < k implies 0 <= #[trigger] a[x] < actual.len() && fits(&wanted[x], &actual[a[x]]) by {
            assert(fm[x]@[a[x]]);
        }
        assert(pairing(wanted, actual, k, a));
    }
    if pairs_off(wanted, actual, k) {
        let a = choose|a: Seq<int>| pairing(wanted, actual, k, a);
        assert forall|x: int| 0 <= x < k implies 0 <= #[trigger] a[x] < fm[x]@.len() && fm[x]@[a[x]] by {
            assert(fits(&wanted[x], &actual[a[x]]));
        }
        assert(assigns(fm, k, a));
    }
}

/// Is there a perfect matching between expectations and the picked
/// models? `None` when there is; else the report on the first expectation
/// that matched nothing, explained against the model closest to it.
fn matching(wanted: &Vec<Model>, v: &Verdict, picks: &Vec<usize>) -> (r: Option<Vec<String>>)
    requires
        verdict_wf(v),
        picks@.len() == wanted@.len(),
        forall|t: int| 0 <= t < picks@.len() ==> (#[trigger] picks@[t]) < models_of(v).len(),
    ensures
        r is None <==> pairs_off(wanted@, picked(v, picks@), wanted@.len() as int),
        r matches Some(lines) ==> texts(lines@) == unpaired_lines(
            wanted@,
            picked(v, picks@),
            first_unpaired(wanted@, picked(v, picks@)),
        ),
{
    let ghost actual = picked(v, picks@);
    let n = wanted.len();
    let m = picks.len();
    let mut fm: Vec<Vec<bool>> = Vec::new();
    let mut x: usize = 0;
    while x < n
        invariant
            n == wanted@.len(),
            m == picks@.len(),
            m == n,
            actual == picked(v, picks@),
            verdict_wf(v),
            forall|t: int| 0 <= t < picks@.len() ==> (#[trigger] picks@[t]) < models_of(v).len(),
            x <= n,
            fm@.len() == x,
            rows_of(fm@, m as int),
            forall|y: int, t: int| 0 <= y < x && 0 <= t < m ==> (#[trigger] fm@[y]@[t]) == fits(&wanted@[y], &actual[t]),
        decreases n - x,
    {
        let mut row: Vec<bool> = Vec::new();
        let mut t: usize = 0;
        while t < m
            invariant
                x < n,
                n == wanted@.len(),
                m == picks@.len(),
                actual == picked(v, picks@),
                verdict_wf(v),
                forall|t: int| 0 <= t < picks@.len() ==> (#[trigger] picks@[t]) < models_of(v).len(),
                t <= m,
                row@.len() == t,
                forall|q: int| 0 <= q < t ==> (#[trigger] row@[q]) == fits(&wanted@[x as int], &actual[q]),
            decreases m - t,
        {
            let a = model_at(v, picks[t]);
            proof {
                assert(models_of(v)[picks@[t as int] as int].wf());
            }
            let d = disagreements(&wanted[x], a, false);
            row.push(d.len() == 0);
            t = t + 1;
        }
        let ghost before = fm@;
        fm.push(row);
        proof {
            assert forall|y: int, q: int| 0 <= y < x + 1 && 0 <= q < m implies (#[trigger] fm@[y]@[q]) == fits(&wanted@[y], &actual[q]) by {
                if y < x {
                    assert(fm@[y] == before[y]);
                }
            }
        }
        x = x + 1;
    }
    let res = first_unmatched(&fm, m);
    proof {
        lemma_matchable_pairs(fm@, wanted@, actual, n as int);
    }
    match res {
        None => None,
        Some(i) => {
            proof {
                lemma_matchable_pairs(fm@, wanted@, actual, i as int);
                lemma_matchable_pairs(fm@, wanted@, actual, i + 1);
                let c = first_unpaired(wanted@, actual);
                assert(0 <= c < wanted@.len() && pairs_off(wanted@, actual, c) && !pairs_off(wanted@, actual, c + 1));
                if c < i {
                    lemma_pairs_prefix(wanted@, actual, i as int, c + 1);
                }
                if c > i {
                    lemma_pairs_prefix(wanted@, actual, c, i + 1);
                }
                assert(c == i);
            }
            let w = &wanted[i];
            let a0 = model_at(v, picks[0]);
            proof {
                assert(models_of(v)[picks@[0] as int].wf());
            }
            let mut best: usize = 0;
            let mut best_len = disagreements(w, a0, false).len();
            let mut t: usize = 1;
            while t < m
                invariant
                    1 <= t <= m,
                    m == picks@.len(),
                    actual == picked(v, picks@),
                    verdict_wf(v),
                    forall|t: int| 0 <= t < picks@.len() ==> (#[trigger] picks@[t]) < models_of(v).len(),
                    best < t,
                    best == closest_upto(w, actual, t as int),
                    best_len == misfit(w, &actual[best as int]),
                decreases m - t,
            {
                let a = model_at(v, picks[t]);
                proof {
                    assert(models_of(v)[picks@[t as int] as int].wf());
                }
                let d = disagreements(w, a, false).len();
                if d < best_len {
                    best = t;
                    best_len = d;
                }
                t = t + 1;
            }
            let ab = model_at(v, picks[best]);
            proof {
                assert(models_of(v)[picks@[best as int] as int].wf());
            }
            let ex = disagreements(w, ab, true);
            let mut which = String::new();
            if n != 1 {
                which.append("expectation ");
                push_digits(&mut which, (i + 1) as u64);
                which.append(" of ");
                push_digits(&mut which, n as u64);
                which.append(": ");
            }
            assert(which@ =~= which_prefix(i as int, n as int));
            let mut lines: Vec<String> = Vec::new();
            let mut k: usize = 0;
            while k < ex.len()
                invariant
                    k <= ex@.len(),
                    texts(lines@) == texts(ex@).take(k as int).map_values(|l: Seq<char>| which@ + l),
                decreases ex@.len() - k,
            {
                let mut line = String::new();
                line.append(which.as_str());
                line.append(ex[k].as_str());
                let ghost before = texts(lines@);
                lines.push(line);
                proof {
                    assert(texts(lines@) =~= before.push(which@ + ex@[k as int]@));
                    assert(texts(ex@).take(k + 1) =~= texts(ex@).take(k as int).push(ex@[k as int]@));
                    assert(texts(lines@) =~= texts(ex@).take(k + 1).map_values(|l: Seq<char>| which@ + l));
                }
                k = k + 1;
            }
            assert(texts(ex@).take(ex@.len() as int) =~= texts(ex@));
            if lines.len() == 0 {
                let mut line = String::new();
                line.append(which.as_str());
                line.append("matches a model that another expectation also claims — the ");
                push_digits(&mut line, n as u64);
                line.append(" expectations are not distinct");
                lines.push(line);
                assert(texts(lines@) =~= seq![not_distinct_line(which@, n as int)]);
            }
            Some(lines)
        },
    }
}


// ── The check ───────────────────────────────────────────────────────

impl Answer {
    /// Every model the answer carries is well formed.
    pub open spec fn wf(&self) -> bool {
        match self {
            Answer::Verdict(v) => verdict_wf(v),
            Answer::Aborted { .. } => true,
        }
    }
}

/// What a verdict-shaped claim reports: held only on an exhausted search.
pub open spec fn held_report(exhausted: bool, what: Seq<char>) -> (Outcome, Seq<Seq<char>>) {
    if exhausted {
        (Outcome::Held, Seq::empty())
    } else {
        (Outcome::NotChecked, seq![unexhausted_line(what)])
    }
}

pub open spec fn plural(n: nat) -> Seq<char> {
    if n == 1 {
        Seq::empty()
    } else {
        "s"@
    }
}

/// Each distinct model projected through the query's `:goal`, numbered.
pub open spec fn model_lines(ds: Seq<Actual>) -> Seq<Seq<char>> {
    Seq::new(
        ds.len(),
        |i: int| "  model "@ + digits((i + 1) as nat) + " of "@ + digits(ds.len()) + ": "@ + goal_text(&ds[i]),
    )
}

/// The report on expectation `e` against the models of verdict `v`.
pub open spec fn verdict_report(e: &Expectation, v: &Verdict, exhausted: bool) -> (Outcome, Seq<Seq<char>>) {
    let want = e.verdict_name@;
    let models = models_of(v);
    if e.contradiction {
        if v is Contradiction {
            held_report(exhausted, "Contradiction"@)
        } else {
            (
                Outcome::Failed,
                seq![
                    "expected (false) — Contradiction — got "@ + v.name() + " with "@ + digits(models.len())
                        + " model"@ + plural(models.len()),
                ],
            )
        }
    } else if v is Contradiction {
        if !exhausted {
            (
                Outcome::NotChecked,
                seq![
                    "expected "@ + want
                        + ", got Contradiction — but the search was not exhausted, so k = 0 means \"no model within the cap\" and not \"no model\""@,
                    "raise --max-set-size, or write `:expect (false)` if ⊥ really is the answer"@,
                ],
            )
        } else {
            (
                Outcome::Failed,
                seq!["expected "@ + want + ", got Contradiction — write `:expect (false)` if that is the answer"@],
            )
        }
    } else {
        let ds = distinct_models(models);
        let wanted = e.models@;
        if ds.len() != wanted.len() {
            let head = seq![
                "expected "@ + want + " with k = "@ + digits(wanted.len()) + ", got "@ + v.name() + " with k = "@
                    + digits(ds.len()),
            ] + model_lines(ds);
            if ds.len() < wanted.len() && !exhausted {
                (
                    Outcome::NotChecked,
                    head.push(
                        "…and the search was not exhausted, so that k is a lower bound — exhaust it (`solve -e`; `test` always does) and raise --max-set-size if the frontier is capped"@,
                    ),
                )
            } else {
                (Outcome::Failed, head)
            }
        } else if pairs_off(wanted, ds, wanted.len() as int) {
            held_report(exhausted, "every listed model"@)
        } else {
            (Outcome::Failed, unpaired_lines(wanted, ds, first_unpaired(wanted, ds)))
        }
    }
}

/// The report on expectation `e` against answer `ans`.
pub open spec fn report_of(e: &Expectation, ans: &Answer, exhausted: bool) -> (Outcome, Seq<Seq<char>>) {
    match ans {
        Answer::Aborted { reason } => (
            Outcome::Failed,
            seq!["expected "@ + e.verdict_name@ + ", but the run did not finish ("@ + reason@ + ")"@],
        ),
        Answer::Verdict(v) => verdict_report(e, v, exhausted),
    }
}

/// Check one query's expectation against the answer it got. `exhausted`
/// is not part of the comparison: it decides whether a match is a verdict,
/// since `k` from a stopped search is only a lower bound.
pub fn check(expectation: &Expectation, answer: &Answer, exhausted: bool) -> (r: Report)
    requires
        answer.wf(),
    ensures
        r.outcome == report_of(expectation, answer, exhausted).0,
        texts(r.lines@) == report_of(expectation, answer, exhausted).1,
{
    let want = expectation.verdict_name.as_str();
    let v = match answer {
        Answer::Verdict(v) => v,
        Answer::Aborted { reason } => {
            let mut line = String::new();
            line.append("expected ");
            line.append(want);
            line.append(", but the run did not finish (");
            line.append(reason.as_str());
            line.append(")");
            let mut lines: Vec<String> = Vec::new();
            lines.push(line);
            assert(texts(lines@) =~= report_of(expectation, answer, exhausted).1);
            return Report::failed(lines);
        },
    };
    let count = model_count(v);
    if expectation.contradiction {
        let is_contradiction = match v {
            Verdict::Contradiction => true,
            _ => false,
        };
        if is_contradiction {
            return Report::ok_if_exhausted(exhausted, "Contradiction");
        }
        let mut line = String::new();
        line.append("expected (false) — Contradiction — got ");
        line.append(v.as_str());
        line.append(" with ");
        push_digits(&mut line, count as u64);
        line.append(" model");
        if count != 1 {
            line.append("s");
        }
        let mut lines: Vec<String> = Vec::new();
        lines.push(line);
        assert(texts(lines@) =~= report_of(expectation, answer, exhausted).1);
        return Report::failed(lines);
    }
    if let Verdict::Contradiction = v {
        let mut lines: Vec<String> = Vec::new();
        if !exhausted {
            let mut line = String::new();
            line.append("expected ");
            line.append(want);
            line.append(
                ", got Contradiction — but the search was not exhausted, so k = 0 means \"no model within the cap\" and not \"no model\"",
            );
            lines.push(line);
            let mut hint = String::new();
            hint.append("raise --max-set-size, or write `:expect (false)` if ⊥ really is the answer");
            lines.push(hint);
            assert(texts(lines@) =~= report_of(expectation, answer, exhausted).1);
            return Report::unchecked(lines);
        }
        let mut line = String::new();
        line.append("expected ");
        line.append(want);
        line.append(", got Contradiction — write `:expect (false)` if that is the answer");
        lines.push(line);
        assert(texts(lines@) =~= report_of(expectation, answer, exhausted).1);
        return Report::failed(lines);
    }
    let ghost ms = models_of(v);
    let picks = distinct_picks(v);
    let ghost ds = distinct_models(ms);
    proof {
        assert(picked(v, picks@) =~= ds) by {
            assert forall|t: int| 0 <= t < picks@.len() implies picked(v, picks@)[t] == ds[t] by {
                assert(picks@.map_values(|j: usize| j as int)[t] == first_of_each(ms)[t]);
            }
        }
    }
    let wanted = &expectation.models;
    let dn = picks.len();
    let wn = wanted.len();
    if dn != wn {
        let mut lines: Vec<String> = Vec::new();
        let mut head = String::new();
        head.append("expected ");
        head.append(want);
        head.append(" with k = ");
        push_digits(&mut head, wn as u64);
        head.append(", got ");
        head.append(v.as_str());
        head.append(" with k = ");
        push_digits(&mut head, dn as u64);
        lines.push(head);
        let ghost first = texts(lines@);
        let mut i: usize = 0;
        while i < dn
            invariant
                dn == picks@.len(),
                ds == picked(v, picks@),
                ds.len() == dn,
                forall|t: int| 0 <= t < picks@.len() ==> (#[trigger] picks@[t]) < models_of(v).len(),
                i <= dn,
                texts(lines@) == first + model_lines(ds).take(i as int),
            decreases dn - i,
        {
            let mut line = String::new();
            line.append("  model ");
            push_digits(&mut line, (i + 1) as u64);
            line.append(" of ");
            push_digits(&mut line, dn as u64);
            line.append(": ");
            let row = goal_row(model_at(v, picks[i]));
            line.append(row.as_str());
            let ghost before = texts(lines@);
            lines.push(line);
            proof {
                assert(line@ == model_lines(ds)[i as int]);
                assert(model_lines(ds).take(i + 1) =~= model_lines(ds).take(i as int).push(model_lines(ds)[i as int]));
                assert(texts(lines@) =~= before.push(line@));
            }
            i = i + 1;
        }
        assert(model_lines(ds).take(dn as int) =~= model_lines(ds));
        if dn < wn && !exhausted {
            let mut tail = String::new();
            tail.append(
                "…and the search was not exhausted, so that k is a lower bound — exhaust it (`solve -e`; `test` always does) and raise --max-set-size if the frontier is capped",
            );
            let ghost before = texts(lines@);
            lines.push(tail);
            assert(texts(lines@) =~= before.push(tail@));
            return Report::unchecked(lines);
        }
        return Report::failed(lines);
    }
    match matching(wanted, v, &picks) {
        None => Report::ok_if_exhausted(exhausted, "every listed model"),
        Some(lines) => Report::failed(lines),
    }
}


impl Actual {
    /// Does the model hold one extent per relation, and each rendering once
    /// within an extent?
    pub fn is_wf(&self) -> (r: bool)
        ensures
            r == self.wf(),
    {
        let n = self.extents.len();
        let mut k1: usize = 0;
        while k1 < n
            invariant
                n == self.extents@.len(),
                k1 <= n,
                forall|a: int, b: int| 0 <= a < k1 && 0 <= b < n && a != b ==> (#[trigger] self.extents@[a]).relation@ != (#[trigger] self.extents@[b]).relation@,
                forall|k: int, j1: int, j2: int|
                    0 <= k < k1 && 0 <= j1 < self.extents@[k].facts@.len() && 0 <= j2 < self.extents@[k].facts@.len() && j1 != j2
                        ==> (#[trigger] self.extents@[k].facts@[j1]).rendered@ != (#[trigger] self.extents@[k].facts@[j2]).rendered@,
            decreases n - k1,
        {
            let mut k2: usize = 0;
            while k2 < n
                invariant
                    n == self.extents@.len(),
                    k1 < n,
                    k2 <= n,
                    forall|b: int| 0 <= b < k2 && k1 != b ==> self.extents@[k1 as int].relation@ != (#[trigger] self.extents@[b]).relation@,
                decreases n - k2,
            {
                if k1 != k2 && str_eq(self.extents[k1].relation.as_str(), self.extents[k2].relation.as_str()) {
                    return false;
                }
                k2 = k2 + 1;
            }
            let hs = &self.extents[k1].facts;
            let m = hs.len();
            let mut j1: usize = 0;
            while j1 < m
                invariant
                    n == self.extents@.len(),
                    k1 < n,
                    *hs == self.extents@[k1 as int].facts,
                    m == hs@.len(),
                    j1 <= m,
                    forall|a: int, b: int| 0 <= a < j1 && 0 <= b < m && a != b ==> (#[trigger] hs@[a]).rendered@ != (#[trigger] hs@[b]).rendered@,
                decreases m - j1,
            {
                let mut j2: usize = 0;
                while j2 < m
                    invariant
                        n == self.extents@.len(),
                        k1 < n,
                        *hs == self.extents@[k1 as int].facts,
                        m == hs@.len(),
                        j1 < m,
                        j2 <= m,
                        forall|b: int| 0 <= b < j2 && j1 != b ==> hs@[j1 as int].rendered@ != (#[trigger] hs@[b]).rendered@,
                    decreases m - j2,
                {
                    if j1 != j2 && str_eq(hs[j1].rendered.as_str(), hs[j2].rendered.as_str()) {
                        assert(self.extents@[k1 as int].facts@[j1 as int].rendered@ == self.extents@[k1 as int].facts@[j2 as int].rendered@);
                        return false;
                    }
                    j2 = j2 + 1;
                }
                j1 = j1 + 1;
            }
            proof {
                assert forall|a: int, b: int| 0 <= a < k1 + 1 && 0 <= b < n && a != b implies (#[trigger] self.extents@[a]).relation@ != (#[trigger] self.extents@[b]).relation@ by {
                    if a == k1 {
                        assert(self.extents@[k1 as int].relation@ != self.extents@[b].relation@);
                    }
                }
                assert forall|k: int, j1: int, j2: int|
                    0 <= k < k1 + 1 && 0 <= j1 < self.extents@[k].facts@.len() && 0 <= j2 < self.extents@[k].facts@.len() && j1 != j2
                        implies (#[trigger] self.extents@[k].facts@[j1]).rendered@ != (#[trigger] self.extents@[k].facts@[j2]).rendered@ by {
                    if k == k1 {
                        assert(hs@[j1].rendered@ != hs@[j2].rendered@);
                    }
                }
            }
            k1 = k1 + 1;
        }
        true
    }
}


// ── What every report keeps ──────────────────────────────────────────

/// A report's lines are empty exactly when the claim held.
pub proof fn lemma_lines_empty_iff_held(e: &Expectation, ans: &Answer, exhausted: bool)
    ensures
        (report_of(e, ans, exhausted).0 == Outcome::Held) <==> report_of(e, ans, exhausted).1.len() == 0,
{
    if let Answer::Verdict(v) = ans {
        if !e.contradiction && !(v is Contradiction) {
            let ds = distinct_models(models_of(v));
            let wanted = e.models@;
            if ds.len() == wanted.len() && !pairs_off(wanted, ds, wanted.len() as int) {
                let i = first_unpaired(wanted, ds);
                let ex = disagreement_lines(&wanted[i], &ds[closest_upto(&wanted[i], ds, ds.len() as int)], true);
                if ex.len() > 0 {
                    assert(ex.map_values(|l: Seq<char>| which_prefix(i, wanted.len() as int) + l).len() > 0);
                }
            }
        }
    }
}

/// Only an exhausted search passes: a stopped one bounds `k` from below
/// and confirms no verdict.
pub proof fn lemma_held_needs_exhausted(e: &Expectation, ans: &Answer, exhausted: bool)
    ensures
        report_of(e, ans, exhausted).0 == Outcome::Held ==> exhausted,
{
}

/// Finding more distinct models than the expectation lists is a failure
/// whether or not the search was exhausted: no further search unfinds a
/// model.
pub proof fn lemma_surplus_models_fail(e: &Expectation, v: &Verdict, exhausted: bool)
    requires
        !e.contradiction,
        distinct_models(models_of(v)).len() > e.models@.len(),
    ensures
        report_of(e, &Answer::Verdict(*v), exhausted).0 == Outcome::Failed,
{
    if v is Contradiction {
        assert(models_of(v).len() == 0);
        assert(distinct_models(models_of(v)).len() == 0) by {
            assert(models_of(v).map_values(|a: Actual| a.state@).len() == 0);
        }
    }
}

} // verus!
