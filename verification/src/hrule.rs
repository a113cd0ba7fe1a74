//! Rule-driven hypothesis generation — `(hrule …)`.
//!
//! An hrule is a rule by shape whose firing yields a candidate hypothesis
//! instead of a derived fact: the puzzle declares which hypotheses are
//! worth trying. A generic hrule — `(hrule guess (?rel ?type) …)` — takes
//! its activators from the query's `:hrules (NAME (a b) …)` keywords
//! rather than from puzzle state, because an hrule activator steers the
//! search; a parameter-less hrule needs none.
//!
//! This module reads those keywords, decides which `(hrule, activator)`
//! plans the engine compiles, and collects the candidates their matches
//! build.
use vstd::prelude::*;

use rustc_hash::FxHashMap;

use crate::facts::{lookup, sym, FactTable};

verus! {

/// A node of the query's keyword list, as the activator reader sees it.
pub enum QueryNode {
    /// A node with an atom name.
    Atom(String),
    /// A `:keyword`, by its name without the colon.
    Keyword(String),
    /// `(head args…)`.
    Form(Box<QueryNode>, Vec<QueryNode>),
    /// A `:key value` pair.
    Pair(Box<QueryNode>, Box<QueryNode>),
    /// Anything else: a number, a string, a variable.
    Other,
}

/// The symbol an atom node names, when it was interned.
pub open spec fn atom_sym(tbl: &FactTable, n: QueryNode) -> Option<u32> {
    match n {
        QueryNode::Atom(t) => lookup(tbl, t@),
        _ => None,
    }
}

/// The interned atoms among `nodes`, in order.
pub open spec fn known_syms(tbl: &FactTable, nodes: Seq<QueryNode>) -> Seq<u32>
    decreases nodes.len(),
{
    if nodes.len() == 0 {
        Seq::empty()
    } else {
        let prev = known_syms(tbl, nodes.drop_last());
        match atom_sym(tbl, nodes.last()) {
            Some(s) => prev.push(s),
            None => prev,
        }
    }
}

/// The argument tuples the items of a `:hrules` value give: one per
/// s-form item — its head and arguments that name interned atoms.
pub open spec fn tuples_of(tbl: &FactTable, items: Seq<QueryNode>) -> Seq<Seq<u32>>
    decreases items.len(),
{
    if items.len() == 0 {
        Seq::empty()
    } else {
        let prev = tuples_of(tbl, items.drop_last());
        match items.last() {
            QueryNode::Form(h, a) => prev.push(known_syms(tbl, seq![*h] + a@)),
            _ => prev,
        }
    }
}

/// What one keyword pair contributes: for `:hrules (NAME items…)` with an
/// interned `NAME`, the hrule and its tuples.
pub open spec fn hrules_entry(tbl: &FactTable, n: QueryNode) -> Option<(u32, Seq<Seq<u32>>)> {
    match n {
        QueryNode::Pair(k, v) => match *k {
            QueryNode::Keyword(name) => if name@ == "hrules"@ {
                match *v {
                    QueryNode::Form(h, items) => match atom_sym(tbl, *h) {
                        Some(s) => Some((s, tuples_of(tbl, items@))),
                        None => None,
                    },
                    _ => None,
                }
            } else {
                None
            },
            _ => None,
        },
        _ => None,
    }
}

/// The activator tuples per hrule from the first `k` keyword pairs: every
/// `:hrules` pair contributes, its tuples appended to the hrule's.
pub open spec fn activators_upto(tbl: &FactTable, pairs: Seq<QueryNode>, k: int) -> Map<u32, Seq<Seq<u32>>>
    decreases k,
{
    if k <= 0 {
        Map::empty()
    } else {
        let m = activators_upto(tbl, pairs, k - 1);
        match hrules_entry(tbl, pairs[k - 1]) {
            Some((h, ts)) => if ts.len() == 0 {
                m
            } else {
                m.insert(
                    h,
                    (if m.contains_key(h) {
                        m[h]
                    } else {
                        Seq::empty()
                    }) + ts,
                )
            },
            None => m,
        }
    }
}

pub open spec fn tuple_views(v: Vec<Vec<u32>>) -> Seq<Seq<u32>> {
    v@.map_values(|t: Vec<u32>| t@)
}

/// The map holds exactly `spec`'s hrules, each with `spec`'s tuples.
pub open spec fn holds_activators(m: Map<u32, Vec<Vec<u32>>>, spec: Map<u32, Seq<Seq<u32>>>) -> bool {
    &&& m.dom() == spec.dom()
    &&& forall|h: u32| #[trigger] m.contains_key(h) ==> tuple_views(m[h]) == spec[h]
}

/// `HashMap::remove` on the Fx-hashed activator map: the hrule's tuples
/// are taken out and handed back, when there were any.
#[verifier::external_body]
fn take_tuples(m: &mut FxHashMap<u32, Vec<Vec<u32>>>, k: u32) -> (v: Option<Vec<Vec<u32>>>)
    ensures
        final(m)@ == old(m)@.remove(k),
        match v {
            Some(t) => old(m)@.contains_key(k) && t == old(m)@[k],
            None => !old(m)@.contains_key(k),
        },
{
    m.remove(&k)
}

/// `HashMap::insert` on the Fx-hashed activator map.
#[verifier::external_body]
fn put_tuples(m: &mut FxHashMap<u32, Vec<Vec<u32>>>, k: u32, v: Vec<Vec<u32>>)
    ensures
        final(m)@ == old(m)@.insert(k, v),
{
    m.insert(k, v);
}

/// `HashMap::get` on the Fx-hashed activator map.
#[verifier::external_body]
fn tuples_for(m: &FxHashMap<u32, Vec<Vec<u32>>>, k: u32) -> (v: Option<&Vec<Vec<u32>>>)
    ensures
        match v {
            Some(t) => m@.contains_key(k) && *t == m@[k],
            None => !m@.contains_key(k),
        },
{
    m.get(&k)
}

fn atom_of(tbl: &FactTable, n: &QueryNode) -> (r: Option<u32>)
    requires
        tbl.names@.len() <= u32::MAX,
    ensures
        r == atom_sym(tbl, *n),
{
    match n {
        QueryNode::Atom(t) => sym(tbl, t.as_str()),
        _ => None,
    }
}

/// One item's tuple: the interned atoms among its head and arguments.
fn item_tuple(tbl: &FactTable, head: &QueryNode, args: &Vec<QueryNode>) -> (t: Vec<u32>)
    requires
        tbl.names@.len() <= u32::MAX,
    ensures
        t@ == known_syms(tbl, seq![*head] + args@),
{
    let ghost all = seq![*head] + args@;
    let mut t: Vec<u32> = Vec::new();
    match atom_of(tbl, head) {
        Some(s) => t.push(s),
        None => {},
    }
    assert(all.take(1).drop_last() =~= Seq::<QueryNode>::empty());
    assert(all.take(1).last() == *head);
    assert(known_syms(tbl, all.take(1).drop_last()) == Seq::<u32>::empty());
    assert(t@ == known_syms(tbl, all.take(1)));
    let mut i: usize = 0;
    while i < args.len()
        invariant
            tbl.names@.len() <= u32::MAX,
            all == seq![*head] + args@,
            i <= args@.len(),
            t@ == known_syms(tbl, all.take(i + 1)),
        decreases args@.len() - i,
    {
        assert(all.take(i + 2).drop_last() =~= all.take(i + 1));
        assert(all.take(i + 2).last() == args@[i as int]);
        match atom_of(tbl, &args[i]) {
            Some(s) => t.push(s),
            None => {},
        }
        i = i + 1;
    }
    assert(all.take(args@.len() as int + 1) =~= all);
    t
}

/// The tuples of a `:hrules` value's items.
fn item_tuples(tbl: &FactTable, items: &Vec<QueryNode>) -> (ts: Vec<Vec<u32>>)
    requires
        tbl.names@.len() <= u32::MAX,
    ensures
        tuple_views(ts) == tuples_of(tbl, items@),
{
    let mut ts: Vec<Vec<u32>> = Vec::new();
    let mut i: usize = 0;
    while i < items.len()
        invariant
            tbl.names@.len() <= u32::MAX,
            i <= items@.len(),
            tuple_views(ts) == tuples_of(tbl, items@.take(i as int)),
        decreases items@.len() - i,
    {
        assert(items@.take(i + 1).drop_last() =~= items@.take(i as int));
        assert(items@.take(i + 1).last() == items@[i as int]);
        let ghost before = tuple_views(ts);
        match &items[i] {
            QueryNode::Form(h, a) => {
                let t = item_tuple(tbl, h, a);
                ts.push(t);
                assert(tuple_views(ts) =~= before.push(known_syms(tbl, seq![**h] + a@)));
            },
            _ => {},
        }
        i = i + 1;
    }
    assert(items@.take(items@.len() as int) =~= items@);
    ts
}

/// What one keyword pair contributes.
fn entry_of(tbl: &FactTable, n: &QueryNode) -> (r: Option<(u32, Vec<Vec<u32>>)>)
    requires
        tbl.names@.len() <= u32::MAX,
    ensures
        match r {
            Some((h, ts)) => hrules_entry(tbl, *n) == Some((h, tuple_views(ts))),
            None => hrules_entry(tbl, *n) is None,
        },
{
    match n {
        QueryNode::Pair(k, v) => match &**k {
            QueryNode::Keyword(name) => {
                proof {
                    reveal_strlit("hrules");
                }
                if !crate::text::str_eq(name.as_str(), "hrules") {
                    return None;
                }
                match &**v {
                    QueryNode::Form(h, items) => match atom_of(tbl, h) {
                        Some(s) => Some((s, item_tuples(tbl, items))),
                        None => None,
                    },
                    _ => None,
                }
            },
            _ => None,
        },
        _ => None,
    }
}

/// Activator argument tuples per hrule name, read from the query's
/// `:hrules (NAME (args…) …)` keywords: each s-form item is one tuple —
/// its head and arguments that name interned atoms — and every `:hrules`
/// pair contributes, appending to the hrule's tuples.
pub fn hrule_activators(tbl: &FactTable, kw_pairs: &[QueryNode]) -> (m: FxHashMap<u32, Vec<Vec<u32>>>)
    requires
        tbl.names@.len() <= u32::MAX,
    ensures
        holds_activators(m@, activators_upto(tbl, kw_pairs@, kw_pairs@.len() as int)),
{
    let mut m: FxHashMap<u32, Vec<Vec<u32>>> = FxHashMap::default();
    let mut i: usize = 0;
    while i < kw_pairs.len()
        invariant
            tbl.names@.len() <= u32::MAX,
            i <= kw_pairs@.len(),
            holds_activators(m@, activators_upto(tbl, kw_pairs@, i as int)),
        decreases kw_pairs@.len() - i,
    {
        let ghost prev = activators_upto(tbl, kw_pairs@, i as int);
        match entry_of(tbl, &kw_pairs[i]) {
            Some((h, ts)) => {
                if ts.len() > 0 {
                    let ghost old_m = m@;
                    let mut cur = match take_tuples(&mut m, h) {
                        Some(t) => t,
                        None => Vec::new(),
                    };
                    let ghost base = tuple_views(cur);
                    assert(base == (if prev.contains_key(h) {
                        prev[h]
                    } else {
                        Seq::<Seq<u32>>::empty()
                    })) by {
                        if !old_m.contains_key(h) {
                            assert(base =~= Seq::<Seq<u32>>::empty());
                        }
                    }
                    let mut j: usize = 0;
                    while j < ts.len()
                        invariant
                            j <= ts@.len(),
                            tuple_views(cur) == base + tuple_views(ts).take(j as int),
                        decreases ts@.len() - j,
                    {
                        let ghost before = tuple_views(cur);
                        cur.push(crate::obligations::copy_ids(&ts[j]));
                        assert(tuple_views(cur) =~= before.push(ts@[j as int]@));
                        assert(tuple_views(ts).take(j + 1) =~= tuple_views(ts).take(j as int).push(ts@[j as int]@));
                        j = j + 1;
                    }
                    assert(tuple_views(ts).take(ts@.len() as int) =~= tuple_views(ts));
                    put_tuples(&mut m, h, cur);
                    let ghost next = activators_upto(tbl, kw_pairs@, i + 1);
                    assert(next == prev.insert(h, base + tuple_views(ts)));
                    assert(m@.dom() =~= next.dom());
                    assert forall|x: u32| #[trigger] m@.contains_key(x) implies tuple_views(m@[x]) == next[x] by {
                        if x != h {
                            assert(old_m.contains_key(x));
                        }
                    }
                }
            },
            None => {},
        }
        i = i + 1;
    }
    m
}

// ── Which plans the engine compiles ──────────────────────────────────

/// An hrule as the plan list reads it: its name and how many parameters
/// it declares.
#[derive(Clone, Copy, PartialEq, Eq, Debug)]
pub struct HruleDecl {
    pub name: u32,
    pub params: usize,
}

/// One hrule plan to compile: the hrule's registry index, and the
/// activator tuple binding its parameters — `None` for a parameter-less
/// hrule.
pub struct Activation {
    pub hrule: usize,
    pub args: Option<Vec<u32>>,
}

pub open spec fn activation_view(a: Activation) -> (int, Option<Seq<u32>>) {
    (
        a.hrule as int,
        match a.args {
            Some(t) => Some(t@),
            None => None,
        },
    )
}

/// The tuples of `ts` that bind exactly `n` parameters, in order: an
/// arity-mismatched activator cannot bind them and is skipped.
pub open spec fn fitting(ts: Seq<Seq<u32>>, n: nat) -> Seq<Seq<u32>>
    decreases ts.len(),
{
    if ts.len() == 0 {
        Seq::empty()
    } else {
        let prev = fitting(ts.drop_last(), n);
        if ts.last().len() == n {
            prev.push(ts.last())
        } else {
            prev
        }
    }
}

/// The plans of the first `k` hrules, in registry order: one for a
/// parameter-less hrule, and one per fitting activator tuple of a generic
/// one; a generic hrule without activators contributes nothing.
pub open spec fn activations_upto(hrules: Seq<HruleDecl>, acts: Map<u32, Seq<Seq<u32>>>, k: int) -> Seq<
    (int, Option<Seq<u32>>),
>
    decreases k,
{
    if k <= 0 {
        Seq::empty()
    } else {
        let prev = activations_upto(hrules, acts, k - 1);
        let h = hrules[k - 1];
        if h.params == 0 {
            prev.push((k - 1, None))
        } else {
            let ts = if acts.contains_key(h.name) {
                acts[h.name]
            } else {
                Seq::empty()
            };
            prev + fitting(ts, h.params as nat).map_values(|t: Seq<u32>| (k - 1, Some(t)))
        }
    }
}

/// The compiled hrule plans' keys, built once and reused per generation
/// pass.
pub struct Hrules {
    pub activations: Vec<Activation>,
}

impl Hrules {
    /// The plans to compile, in registry order: one per parameter-less
    /// hrule, and one per `:hrules` activator tuple of a generic one whose
    /// length matches its parameters.
    pub fn new(hrules: &[HruleDecl], activators: &FxHashMap<u32, Vec<Vec<u32>>>) -> (r: Hrules)
        requires
            hrules@.len() <= usize::MAX,
        ensures
            r.activations@.map_values(|a: Activation| activation_view(a)) == activations_upto(
                hrules@,
                activators@.map_values(|v: Vec<Vec<u32>>| tuple_views(v)),
                hrules@.len() as int,
            ),
    {
        let ghost acts = activators@.map_values(|v: Vec<Vec<u32>>| tuple_views(v));
        let mut out: Vec<Activation> = Vec::new();
        let mut k: usize = 0;
        while k < hrules.len()
            invariant
                k <= hrules@.len(),
                acts == activators@.map_values(|v: Vec<Vec<u32>>| tuple_views(v)),
                out@.map_values(|a: Activation| activation_view(a)) == activations_upto(hrules@, acts, k as int),
            decreases hrules@.len() - k,
        {
            let h = hrules[k];
            let ghost prev = out@.map_values(|a: Activation| activation_view(a));
            if h.params == 0 {
                out.push(Activation { hrule: k, args: None });
                assert(out@.map_values(|a: Activation| activation_view(a)) =~= prev.push((k as int, None)));
            } else {
                match tuples_for(activators, h.name) {
                    Some(ts) => {
                        let ghost tv = tuple_views(*ts);
                        assert(acts.contains_key(h.name) && acts[h.name] == tv);
                        let mut j: usize = 0;
                        while j < ts.len()
                            invariant
                                j <= ts@.len(),
                                tv == tuple_views(*ts),
                                out@.map_values(|a: Activation| activation_view(a)) == prev + fitting(
                                    tv.take(j as int),
                                    h.params as nat,
                                ).map_values(|t: Seq<u32>| (k as int, Some(t))),
                            decreases ts@.len() - j,
                        {
                            let ghost before = out@.map_values(|a: Activation| activation_view(a));
                            assert(tv.take(j + 1).drop_last() =~= tv.take(j as int));
                            assert(tv.take(j + 1).last() == ts@[j as int]@);
                            if ts[j].len() == h.params {
                                out.push(Activation { hrule: k, args: Some(crate::obligations::copy_ids(&ts[j])) });
                                assert(out@.map_values(|a: Activation| activation_view(a)) =~= before.push(
                                    (k as int, Some(ts@[j as int]@)),
                                ));
                                assert(fitting(tv.take(j + 1), h.params as nat).map_values(
                                    |t: Seq<u32>| (k as int, Some(t)),
                                ) =~= fitting(tv.take(j as int), h.params as nat).map_values(
                                    |t: Seq<u32>| (k as int, Some(t)),
                                ).push((k as int, Some(ts@[j as int]@))));
                            }
                            j = j + 1;
                        }
                        assert(tv.take(ts@.len() as int) =~= tv);
                    },
                    None => {
                        assert(!acts.contains_key(h.name));
                        assert(fitting(Seq::<Seq<u32>>::empty(), h.params as nat).map_values(
                            |t: Seq<u32>| (k as int, Some(t)),
                        ) =~= Seq::<(int, Option<Seq<u32>>)>::empty());
                        assert(prev + Seq::<(int, Option<Seq<u32>>)>::empty() =~= prev);
                    },
                }
            }
            k = k + 1;
        }
        Hrules { activations: out }
    }

    /// The candidates the plans' matches built, plan after plan and match
    /// after match: a plan whose `:assert` is not a fact template yields
    /// none, and a match whose template could not be built yields none.
    /// The candidates are hypotheses, handed to the filters — not written.
    pub fn candidates(&self, built: &[PlanMatches]) -> (c: Vec<u32>)
        ensures
            c@ == candidates_upto(built@, built@.len() as int),
    {
        let mut c: Vec<u32> = Vec::new();
        let mut i: usize = 0;
        while i < built.len()
            invariant
                i <= built@.len(),
                c@ == candidates_upto(built@, i as int),
            decreases built@.len() - i,
        {
            let p = &built[i];
            if p.template_is_fact {
                let ghost base = c@;
                let mut j: usize = 0;
                while j < p.facts.len()
                    invariant
                        *p == built@[i as int],
                        j <= p.facts@.len(),
                        c@ == base + built_facts(p.facts@.take(j as int)),
                    decreases p.facts@.len() - j,
                {
                    assert(p.facts@.take(j + 1).drop_last() =~= p.facts@.take(j as int));
                    match p.facts[j] {
                        Some(f) => {
                            c.push(f);
                            assert(c@ =~= base + built_facts(p.facts@.take(j + 1)));
                        },
                        None => {
                            assert(c@ =~= base + built_facts(p.facts@.take(j + 1)));
                        },
                    }
                    j = j + 1;
                }
                assert(p.facts@.take(p.facts@.len() as int) =~= p.facts@);
            }
            i = i + 1;
        }
        c
    }
}

/// What one plan's matches built: whether its `:assert` is a fact
/// template, and per match the candidate fact, or `None` where the
/// template could not be built.
pub struct PlanMatches {
    pub template_is_fact: bool,
    pub facts: Vec<Option<u32>>,
}

/// The facts built, in order.
pub open spec fn built_facts(s: Seq<Option<u32>>) -> Seq<u32>
    decreases s.len(),
{
    if s.len() == 0 {
        Seq::empty()
    } else {
        let prev = built_facts(s.drop_last());
        match s.last() {
            Some(f) => prev.push(f),
            None => prev,
        }
    }
}

/// The candidates of the first `k` plans.
pub open spec fn candidates_upto(built: Seq<PlanMatches>, k: int) -> Seq<u32>
    decreases k,
{
    if k <= 0 {
        Seq::empty()
    } else {
        let prev = candidates_upto(built, k - 1);
        if built[k - 1].template_is_fact {
            prev + built_facts(built[k - 1].facts@)
        } else {
            prev
        }
    }
}

} // verus!
