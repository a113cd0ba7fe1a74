//! The static NAF dependency map — advisory only.
//!
//! Which `(absent …)` guards watch a **rule-derived** relation (the shape
//! that can make a rule set non-stratified), which watch a **declared-only**
//! one, and which conclude a refutation from the absence of a relation the
//! hypothesis generator can still extend — the shape `dead`'s
//! upward-closure premise fails on. The questions share one walk over the
//! same guards, so the classification cannot drift between them.
use vstd::prelude::*;

use rustc_hash::FxHashSet;

use crate::fxset::{contains_id, empty_set, insert_id};
use crate::text::{
    contains_text, join_with, lemma_push_text, push_repr, py_repr, set_sorted, sort_distinct, str_eq, str_less,
    text_less, texts, lemma_text_irrefl, lemma_text_total, lemma_text_trans,
};

verus! {

/// The stratification advisory's category.
pub const DERIVED_NAF: &'static str = "DerivedNafWarning";

/// The refutation-exposure advisory's category.
pub const REFUTATION_UNDER_ABSENT: &'static str = "RefutationUnderAbsentWarning";

/// A relation an `(absent …)` guard watches: its id, its name, and whether
/// the watch reads its stored negative `(not (R …))`.
pub struct RelRef {
    pub rel: u32,
    pub name: String,
    pub negated: bool,
}

/// What the map reads of one compiled `(rule, activator)` plan.
pub struct PlanNaf {
    /// The rule's name.
    pub rule: String,
    /// The activator's arguments' names.
    pub activator: Vec<String>,
    /// The relation the `:assert` derives positively, if it does.
    pub asserts: Option<u32>,
    /// The relation whose stored negative the `:assert` derives, if it does.
    pub negates: Option<u32>,
    /// The relations its `(absent …)` guards watch, both nesting levels.
    pub refs: Vec<RelRef>,
    /// The relations heading the `:assert`'s nested conclusions, in order.
    pub heads: Vec<u32>,
}

/// A rule that concludes a refutation from an absence the search can still
/// fill.
#[derive(Clone, PartialEq, Eq, Debug)]
pub struct Refutation {
    /// What the `:assert` concludes: `"(false)"` or `"(not …)"`.
    pub concludes: &'static str,
    /// The watched relations the generator can still extend, sorted labels.
    pub watching: Vec<String>,
}

/// One `(rule, activator)` pair's NAF dependency classification. The
/// relation lists are sorted **labels**: a negated watch is labelled
/// `"(not R)"`, distinct from `"R"`.
#[derive(Clone, PartialEq, Eq, Debug)]
pub struct NafDep {
    pub rule: String,
    pub activator: Vec<String>,
    pub derived: Vec<String>,
    pub declared_only: Vec<String>,
    /// Present only when the `:assert` refutes and a watched relation is
    /// one the generator can still propose.
    pub refutation: Option<Refutation>,
}

/// One advisory line, and which kind it is.
#[derive(Clone, PartialEq, Eq, Debug)]
pub struct NafWarning {
    pub category: &'static str,
    pub text: String,
}

// ── The classification ───────────────────────────────────────────────

/// What a plan's `:assert` concludes when it refutes: a direct `(false)`
/// outranks a negative, whichever comes first.
pub open spec fn refutes(heads: Seq<u32>, falsum: u32, not: u32) -> Option<Seq<char>> {
    if heads.contains(falsum) {
        Some("(false)"@)
    } else if heads.contains(not) {
        Some("(not …)"@)
    } else {
        None
    }
}

/// A watched relation's label.
pub open spec fn label(r: RelRef) -> Seq<char> {
    if r.negated {
        "(not "@ + r.name@ + ")"@
    } else {
        r.name@
    }
}

/// The relations some plan derives positively.
pub open spec fn producible(plans: Seq<PlanNaf>) -> Set<u32> {
    Set::new(|x: u32| exists|k: int| 0 <= k < plans.len() && (#[trigger] plans[k]).asserts == Some(x))
}

/// The relations whose stored negative some plan derives.
pub open spec fn negatable(plans: Seq<PlanNaf>) -> Set<u32> {
    Set::new(|x: u32| exists|k: int| 0 <= k < plans.len() && (#[trigger] plans[k]).negates == Some(x))
}

/// A watch reads a rule-derived relation: a positive read, one a rule
/// asserts; a negated read, one whose negative a rule asserts.
pub open spec fn is_derived(r: RelRef, prod: Set<u32>, neg: Set<u32>) -> bool {
    if r.negated {
        neg.contains(r.rel)
    } else {
        prod.contains(r.rel)
    }
}

/// The labels of the watches of `refs` that read derived relations (or,
/// `derived == false`, declared-only ones).
pub open spec fn labels_of(refs: Seq<RelRef>, prod: Set<u32>, neg: Set<u32>, derived: bool) -> Set<Seq<char>> {
    Set::new(
        |l: Seq<char>|
            exists|i: int|
                0 <= i < refs.len() && label(#[trigger] refs[i]) == l && is_derived(refs[i], prod, neg) == derived,
    )
}

/// The labels of the positive watches of relations the generator can still
/// propose. A negated watch is no exposure: adding an `R` cannot make a
/// missing `(not (R …))` appear.
pub open spec fn exposed(refs: Seq<RelRef>, eligible: Set<u32>) -> Set<Seq<char>> {
    Set::new(
        |l: Seq<char>|
            exists|i: int|
                0 <= i < refs.len() && label(#[trigger] refs[i]) == l && !refs[i].negated && eligible.contains(
                    refs[i].rel,
                ),
    )
}

/// A record, as the values it holds: rule, activator, derived labels,
/// declared-only labels, and the refutation's conclusion and watches.
pub type DepView = (Seq<char>, Seq<Seq<char>>, Seq<Seq<char>>, Seq<Seq<char>>, Option<(Seq<char>, Seq<Seq<char>>)>);

pub open spec fn dep_view(d: NafDep) -> DepView {
    (
        d.rule@,
        texts(d.activator@),
        texts(d.derived@),
        texts(d.declared_only@),
        match d.refutation {
            Some(r) => Some((r.concludes@, texts(r.watching@))),
            None => None,
        },
    )
}

/// Plan `p`'s record, classified against `prod` and `neg`.
pub open spec fn record(p: PlanNaf, prod: Set<u32>, neg: Set<u32>, eligible: Set<u32>, falsum: u32, not: u32) -> DepView {
    let ex = exposed(p.refs@, eligible);
    (
        p.rule@,
        texts(p.activator@),
        set_sorted(labels_of(p.refs@, prod, neg, true)),
        set_sorted(labels_of(p.refs@, prod, neg, false)),
        match refutes(p.heads@, falsum, not) {
            Some(c) => if ex.is_empty() {
                None
            } else {
                Some((c, set_sorted(ex)))
            },
            None => None,
        },
    )
}

/// The records of the first `k` plans that watch anything, in plan order.
pub open spec fn records_upto(plans: Seq<PlanNaf>, k: int, eligible: Set<u32>, falsum: u32, not: u32) -> Seq<DepView>
    decreases k,
{
    if k <= 0 || k > plans.len() {
        Seq::empty()
    } else {
        let prev = records_upto(plans, k - 1, eligible, falsum, not);
        if plans[k - 1].refs@.len() == 0 {
            prev
        } else {
            prev.push(record(plans[k - 1], producible(plans), negatable(plans), eligible, falsum, not))
        }
    }
}

// ── The record order ─────────────────────────────────────────────────

/// `tuple[str, ...]` order: element-wise by text, a proper prefix first.
pub open spec fn args_less(a: Seq<Seq<char>>, b: Seq<Seq<char>>) -> bool
    decreases a.len(),
{
    if a.len() == 0 {
        b.len() > 0
    } else if b.len() == 0 {
        false
    } else if a[0] != b[0] {
        text_less(a[0], b[0])
    } else {
        args_less(a.drop_first(), b.drop_first())
    }
}

/// What the records sort by: the rule's name, then the activator.
pub open spec fn dep_key(d: DepView) -> Seq<Seq<char>> {
    seq![d.0] + d.1
}

/// Record `a` of `ds` comes before record `b` once sorted: by key, and in
/// plan order among equal keys.
pub open spec fn dep_before(ds: Seq<DepView>, a: int, b: int) -> bool {
    args_less(dep_key(ds[a]), dep_key(ds[b])) || (!args_less(dep_key(ds[b]), dep_key(ds[a])) && a < b)
}

/// `order` sorts `ds` stably by key.
pub open spec fn dep_order(ds: Seq<DepView>, order: Seq<int>) -> bool {
    &&& order.len() == ds.len()
    &&& forall|t: int| 0 <= t < order.len() ==> 0 <= #[trigger] order[t] < ds.len()
    &&& order.no_duplicates()
    &&& forall|t: int, u: int| 0 <= t < u < order.len() ==> dep_before(ds, #[trigger] order[t], #[trigger] order[u])
}

proof fn lemma_args_irrefl(a: Seq<Seq<char>>)
    ensures
        !args_less(a, a),
    decreases a.len(),
{
    if a.len() > 0 {
        lemma_args_irrefl(a.drop_first());
    }
}

proof fn lemma_args_trans(a: Seq<Seq<char>>, b: Seq<Seq<char>>, c: Seq<Seq<char>>)
    requires
        args_less(a, b),
        args_less(b, c),
    ensures
        args_less(a, c),
    decreases a.len(),
{
    if a.len() > 0 && b.len() > 0 && c.len() > 0 {
        if a[0] != b[0] && b[0] != c[0] {
            lemma_text_trans(a[0], b[0], c[0]);
            if a[0] == c[0] {
                lemma_text_trans(a[0], b[0], a[0]);
                lemma_text_irrefl(a[0]);
            }
        } else if a[0] == b[0] && b[0] == c[0] {
            lemma_args_trans(a.drop_first(), b.drop_first(), c.drop_first());
        }
    }
}

proof fn lemma_args_total(a: Seq<Seq<char>>, b: Seq<Seq<char>>)
    requires
        a != b,
    ensures
        args_less(a, b) || args_less(b, a),
    decreases a.len(),
{
    if a.len() == 0 && b.len() == 0 {
        assert(a =~= b);
    } else if a.len() > 0 && b.len() > 0 {
        if a[0] != b[0] {
            lemma_text_total(a[0], b[0]);
        } else {
            if a.drop_first() == b.drop_first() {
                assert(a =~= seq![a[0]] + a.drop_first());
                assert(b =~= seq![b[0]] + b.drop_first());
            }
            lemma_args_total(a.drop_first(), b.drop_first());
        }
    }
}

/// `a` sorts before `c` whenever `a` sorts before `b` and `c` does not
/// sort before `b`.
proof fn lemma_args_lt_le(a: Seq<Seq<char>>, b: Seq<Seq<char>>, c: Seq<Seq<char>>)
    requires
        args_less(a, b),
        !args_less(c, b),
    ensures
        args_less(a, c),
{
    if b == c {
    } else {
        lemma_args_total(b, c);
        lemma_args_trans(a, b, c);
    }
}


// ── Building the map ─────────────────────────────────────────────────

/// Does the `:assert` conclude a refutation rather than a derivation?
/// Every conclusion is inspected: a rule can derive a fact and refute.
fn refuting_conclusion(heads: &Vec<u32>, falsum: u32, not: u32) -> (r: Option<&'static str>)
    ensures
        match r {
            Some(c) => refutes(heads@, falsum, not) == Some(c@),
            None => refutes(heads@, falsum, not) is None,
        },
{
    let mut found: Option<&'static str> = None;
    let mut i: usize = 0;
    while i < heads.len()
        invariant
            i <= heads@.len(),
            !heads@.take(i as int).contains(falsum),
            match found {
                Some(c) => heads@.take(i as int).contains(not) && c@ == "(not …)"@,
                None => !heads@.take(i as int).contains(not),
            },
        decreases heads@.len() - i,
    {
        let h = heads[i];
        proof {
            assert(heads@.take(i + 1) =~= heads@.take(i as int).push(h));
            crate::text::lemma_push_contains(heads@.take(i as int), h, falsum);
            crate::text::lemma_push_contains(heads@.take(i as int), h, not);
        }
        if h == falsum {
            assert(heads@[i as int] == falsum);
            return Some("(false)");
        }
        if h == not {
            found = Some("(not …)");
        }
        i = i + 1;
    }
    assert(heads@.take(heads@.len() as int) =~= heads@);
    found
}

fn label_of(r: &RelRef) -> (l: String)
    ensures
        l@ == label(*r),
{
    let mut out = String::new();
    if r.negated {
        out.append("(not ");
        out.append(r.name.as_str());
        out.append(")");
    } else {
        out.append(r.name.as_str());
        assert(out@ =~= r.name@);
    }
    out
}

fn copy_texts(v: &Vec<String>) -> (r: Vec<String>)
    ensures
        texts(r@) == texts(v@),
{
    let mut out: Vec<String> = Vec::new();
    let mut i: usize = 0;
    while i < v.len()
        invariant
            i <= v@.len(),
            texts(out@) == texts(v@).take(i as int),
        decreases v@.len() - i,
    {
        let ghost before = texts(out@);
        out.push(v[i].clone());
        assert(texts(out@) =~= before.push(v@[i as int]@));
        assert(texts(v@).take(i + 1) =~= texts(v@).take(i as int).push(v@[i as int]@));
        i = i + 1;
    }
    assert(texts(v@).take(v@.len() as int) =~= texts(v@));
    out
}

/// Add `l` to the distinct labels `v` if it is new.
fn add_label(v: &mut Vec<String>, l: &String)
    requires
        texts(old(v)@).no_duplicates(),
    ensures
        texts(final(v)@).no_duplicates(),
        texts(final(v)@).to_set() == texts(old(v)@).to_set().insert(l@),
{
    if contains_text(v, l.as_str()) {
        assert(texts(v@).to_set().insert(l@) =~= texts(v@).to_set());
    } else {
        let ghost before = texts(v@);
        v.push(l.clone());
        proof {
            assert(texts(v@) =~= before.push(l@));
            lemma_push_text(before, l@);
        }
    }
}

/// Plan `p`'s record, classified against the relations rules derive.
fn record_of(
    p: &PlanNaf,
    prod: &FxHashSet<u32>,
    neg: &FxHashSet<u32>,
    eligible: &FxHashSet<u32>,
    falsum: u32,
    not: u32,
) -> (d: NafDep)
    ensures
        dep_view(d) == record(*p, prod@, neg@, eligible@, falsum, not),
{
    let ghost refs = p.refs@;
    let mut der: Vec<String> = Vec::new();
    let mut dec: Vec<String> = Vec::new();
    let mut exp: Vec<String> = Vec::new();
    let mut i: usize = 0;
    while i < p.refs.len()
        invariant
            refs == p.refs@,
            i <= refs.len(),
            texts(der@).no_duplicates(),
            texts(dec@).no_duplicates(),
            texts(exp@).no_duplicates(),
            texts(der@).to_set() == labels_of(refs.take(i as int), prod@, neg@, true),
            texts(dec@).to_set() == labels_of(refs.take(i as int), prod@, neg@, false),
            texts(exp@).to_set() == exposed(refs.take(i as int), eligible@),
        decreases refs.len() - i,
    {
        let r = &p.refs[i];
        let l = label_of(r);
        let derived = if r.negated {
            contains_id(neg, r.rel)
        } else {
            contains_id(prod, r.rel)
        };
        let ghost t0 = refs.take(i as int);
        let ghost t1 = refs.take(i + 1);
        proof {
            assert(t1 =~= t0.push(refs[i as int]));
        }
        if derived {
            add_label(&mut der, &l);
        } else {
            add_label(&mut dec, &l);
        }
        let exposes = !r.negated && contains_id(eligible, r.rel);
        if exposes {
            add_label(&mut exp, &l);
        }
        proof {
            assert forall|b: bool| labels_of(t1, prod@, neg@, b) =~= if is_derived(refs[i as int], prod@, neg@) == b {
                labels_of(t0, prod@, neg@, b).insert(l@)
            } else {
                labels_of(t0, prod@, neg@, b)
            } by {
                assert forall|x: Seq<char>| labels_of(t1, prod@, neg@, b).contains(x) implies (if is_derived(refs[i as int], prod@, neg@) == b {
                    labels_of(t0, prod@, neg@, b).insert(l@)
                } else {
                    labels_of(t0, prod@, neg@, b)
                }).contains(x) by {
                    let q = choose|q: int| 0 <= q < t1.len() && label(#[trigger] t1[q]) == x && is_derived(t1[q], prod@, neg@) == b;
                    if q < i {
                        assert(t0[q] == t1[q]);
                    }
                }
                if is_derived(refs[i as int], prod@, neg@) == b {
                    assert(label(t1[i as int]) == l@);
                }
                assert forall|x: Seq<char>| labels_of(t0, prod@, neg@, b).contains(x) implies labels_of(t1, prod@, neg@, b).contains(x) by {
                    let q = choose|q: int| 0 <= q < t0.len() && label(#[trigger] t0[q]) == x && is_derived(t0[q], prod@, neg@) == b;
                    assert(t1[q] == t0[q]);
                }
            }
            assert(labels_of(t1, prod@, neg@, true) == if derived {
                labels_of(t0, prod@, neg@, true).insert(l@)
            } else {
                labels_of(t0, prod@, neg@, true)
            });
            assert(labels_of(t1, prod@, neg@, false) == if !derived {
                labels_of(t0, prod@, neg@, false).insert(l@)
            } else {
                labels_of(t0, prod@, neg@, false)
            });
            assert(exposed(t1, eligible@) =~= if exposes {
                exposed(t0, eligible@).insert(l@)
            } else {
                exposed(t0, eligible@)
            }) by {
                assert forall|x: Seq<char>| exposed(t1, eligible@).contains(x) implies (if exposes {
                    exposed(t0, eligible@).insert(l@)
                } else {
                    exposed(t0, eligible@)
                }).contains(x) by {
                    let q = choose|q: int| 0 <= q < t1.len() && label(#[trigger] t1[q]) == x && !t1[q].negated && eligible@.contains(t1[q].rel);
                    if q < i {
                        assert(t0[q] == t1[q]);
                    }
                }
                if exposes {
                    assert(label(t1[i as int]) == l@);
                }
                assert forall|x: Seq<char>| exposed(t0, eligible@).contains(x) implies exposed(t1, eligible@).contains(x) by {
                    let q = choose|q: int| 0 <= q < t0.len() && label(#[trigger] t0[q]) == x && !t0[q].negated && eligible@.contains(t0[q].rel);
                    assert(t1[q] == t0[q]);
                }
            }
        }
        i = i + 1;
    }
    assert(refs.take(refs.len() as int) =~= refs);
    let derived = sort_distinct(&der);
    let declared_only = sort_distinct(&dec);
    let refutation = match refuting_conclusion(&p.heads, falsum, not) {
        Some(c) => {
            if exp.len() == 0 {
                assert(exposed(refs, eligible@) =~= Set::empty());
                None
            } else {
                assert(exposed(refs, eligible@).contains(texts(exp@)[0]));
                Some(Refutation { concludes: c, watching: sort_distinct(&exp) })
            }
        },
        None => None,
    };
    let d = NafDep { rule: p.rule.clone(), activator: copy_texts(&p.activator), derived, declared_only, refutation };
    assert(dep_view(d) =~= record(*p, prod@, neg@, eligible@, falsum, not));
    d
}

fn copy_dep(d: &NafDep) -> (r: NafDep)
    ensures
        dep_view(r) == dep_view(*d),
{
    let refutation = match &d.refutation {
        Some(x) => Some(Refutation { concludes: x.concludes, watching: copy_texts(&x.watching) }),
        None => None,
    };
    NafDep {
        rule: d.rule.clone(),
        activator: copy_texts(&d.activator),
        derived: copy_texts(&d.derived),
        declared_only: copy_texts(&d.declared_only),
        refutation,
    }
}

/// Does record `a` sort strictly before record `b` by key?
fn dep_less(a: &NafDep, b: &NafDep) -> (r: bool)
    ensures
        r == args_less(dep_key(dep_view(*a)), dep_key(dep_view(*b))),
{
    let ghost ka = dep_key(dep_view(*a));
    let ghost kb = dep_key(dep_view(*b));
    if !str_eq(a.rule.as_str(), b.rule.as_str()) {
        return str_less(a.rule.as_str(), b.rule.as_str());
    }
    let ghost x = texts(a.activator@);
    let ghost y = texts(b.activator@);
    assert(ka.drop_first() =~= x);
    assert(kb.drop_first() =~= y);
    assert(ka[0] == kb[0]);
    assert(args_less(ka, kb) == args_less(x, y));
    let n = a.activator.len();
    let m = b.activator.len();
    let mut i: usize = 0;
    assert(x.skip(0) =~= x);
    assert(y.skip(0) =~= y);
    while i < n && i < m
        invariant
            n == x.len(),
            m == y.len(),
            x == texts(a.activator@),
            y == texts(b.activator@),
            i <= n,
            i <= m,
            args_less(x, y) == args_less(x.skip(i as int), y.skip(i as int)),
            args_less(dep_key(dep_view(*a)), dep_key(dep_view(*b))) == args_less(x, y),
        decreases n - i,
    {
        let s = a.activator[i].as_str();
        let t = b.activator[i].as_str();
        proof {
            assert(x.skip(i as int)[0] == s@);
            assert(y.skip(i as int)[0] == t@);
            assert(x.skip(i as int).drop_first() =~= x.skip(i + 1));
            assert(y.skip(i as int).drop_first() =~= y.skip(i + 1));
        }
        if !str_eq(s, t) {
            assert(x.skip(i as int)[0] != y.skip(i as int)[0]);
            assert(args_less(x.skip(i as int), y.skip(i as int)) == text_less(s@, t@));
            return str_less(s, t);
        }
        i = i + 1;
    }
    proof {
        assert(x.skip(i as int).len() == n - i);
        assert(y.skip(i as int).len() == m - i);
    }
    i == n && i < m
}

/// The static map over the compiled plans: one record per plan carrying
/// at least one `(absent …)` guard, each watch classified against the
/// relations the same plans derive, the records sorted stably by rule
/// name and then activator, by text. `eligible` — the program's
/// hypothesis-eligible relations — drives the refutation finding alone;
/// `falsum` and `not` are the kernel's `false` and `not`.
pub fn compute_naf_map(plans: &Vec<PlanNaf>, eligible: &FxHashSet<u32>, falsum: u32, not: u32) -> (deps: Vec<NafDep>)
    ensures
        exists|order: Seq<int>|
            #[trigger] dep_order(records_upto(plans@, plans@.len() as int, eligible@, falsum, not), order)
                && deps@.map_values(|d: NafDep| dep_view(d)) == order.map_values(
                |t: int| records_upto(plans@, plans@.len() as int, eligible@, falsum, not)[t],
            ),
{
    let ghost ps = plans@;
    let mut prod = empty_set();
    let mut neg = empty_set();
    let mut k: usize = 0;
    while k < plans.len()
        invariant
            ps == plans@,
            k <= ps.len(),
            forall|x: u32| prod@.contains(x) <==> exists|q: int| 0 <= q < k && (#[trigger] ps[q]).asserts == Some(x),
            forall|x: u32| neg@.contains(x) <==> exists|q: int| 0 <= q < k && (#[trigger] ps[q]).negates == Some(x),
        decreases ps.len() - k,
    {
        match plans[k].asserts {
            Some(r) => {
                insert_id(&mut prod, r);
            },
            None => {},
        }
        match plans[k].negates {
            Some(r) => {
                insert_id(&mut neg, r);
            },
            None => {},
        }
        proof {
            assert forall|x: u32| prod@.contains(x) <==> exists|q: int| 0 <= q < k + 1 && (#[trigger] ps[q]).asserts == Some(x) by {
                if ps[k as int].asserts == Some(x) {
                    assert(exists|q: int| 0 <= q < k + 1 && (#[trigger] ps[q]).asserts == Some(x));
                }
                if exists|q: int| 0 <= q < k + 1 && (#[trigger] ps[q]).asserts == Some(x) {
                    let q = choose|q: int| 0 <= q < k + 1 && (#[trigger] ps[q]).asserts == Some(x);
                    if q < k {
                        assert(exists|q: int| 0 <= q < k && (#[trigger] ps[q]).asserts == Some(x));
                    }
                }
            }
            assert forall|x: u32| neg@.contains(x) <==> exists|q: int| 0 <= q < k + 1 && (#[trigger] ps[q]).negates == Some(x) by {
                if ps[k as int].negates == Some(x) {
                    assert(exists|q: int| 0 <= q < k + 1 && (#[trigger] ps[q]).negates == Some(x));
                }
                if exists|q: int| 0 <= q < k + 1 && (#[trigger] ps[q]).negates == Some(x) {
                    let q = choose|q: int| 0 <= q < k + 1 && (#[trigger] ps[q]).negates == Some(x);
                    if q < k {
                        assert(exists|q: int| 0 <= q < k && (#[trigger] ps[q]).negates == Some(x));
                    }
                }
            }
        }
        k = k + 1;
    }
    assert(prod@ =~= producible(ps));
    assert(neg@ =~= negatable(ps));
    let mut recs: Vec<NafDep> = Vec::new();
    let mut k: usize = 0;
    while k < plans.len()
        invariant
            ps == plans@,
            k <= ps.len(),
            prod@ == producible(ps),
            neg@ == negatable(ps),
            recs@.map_values(|d: NafDep| dep_view(d)) == records_upto(ps, k as int, eligible@, falsum, not),
        decreases ps.len() - k,
    {
        if plans[k].refs.len() > 0 {
            let d = record_of(&plans[k], &prod, &neg, eligible, falsum, not);
            let ghost before = recs@;
            recs.push(d);
            assert(recs@.map_values(|d: NafDep| dep_view(d)) =~= before.map_values(|d: NafDep| dep_view(d)).push(dep_view(d)));
        }
        k = k + 1;
    }
    let ghost ds = records_upto(ps, ps.len() as int, eligible@, falsum, not);
    // A stable insertion sort of the record indices.
    let mut order: Vec<usize> = Vec::new();
    let mut i: usize = 0;
    while i < recs.len()
        invariant
            recs@.map_values(|d: NafDep| dep_view(d)) == ds,
            i <= recs@.len(),
            order@.len() == i,
            forall|t: int| 0 <= t < i ==> (#[trigger] order@[t]) < i,
            forall|t: int, u: int| 0 <= t < u < i ==> dep_before(ds, #[trigger] order@[t] as int, #[trigger] order@[u] as int),
        decreases recs@.len() - i,
    {
        let mut p: usize = 0;
        while p < order.len() && !dep_less(&recs[i], &recs[order[p]])
            invariant
                recs@.map_values(|d: NafDep| dep_view(d)) == ds,
                i < recs@.len(),
                order@.len() == i,
                forall|t: int| 0 <= t < i ==> (#[trigger] order@[t]) < i,
                p <= order@.len(),
                forall|t: int| 0 <= t < p ==> !args_less(dep_key(ds[i as int]), dep_key(ds[(#[trigger] order@[t]) as int])),
            decreases order@.len() - p,
        {
            assert(dep_view(recs@[i as int]) == ds[i as int]);
            assert(dep_view(recs@[order@[p as int] as int]) == ds[order@[p as int] as int]);
            p = p + 1;
        }
        proof {
            if p < order@.len() {
                assert(dep_view(recs@[i as int]) == ds[i as int]);
                assert(dep_view(recs@[order@[p as int] as int]) == ds[order@[p as int] as int]);
            }
        }
        let ghost before = order@;
        order.insert(p, i);
        proof {
            assert forall|t: int| 0 <= t < i + 1 implies (#[trigger] order@[t]) < i + 1 by {
                if t < p {
                    assert(order@[t] == before[t]);
                } else if t > p {
                    assert(order@[t] == before[t - 1]);
                }
            }
            assert forall|t: int, u: int| 0 <= t < u < i + 1 implies dep_before(ds, #[trigger] order@[t] as int, #[trigger] order@[u] as int) by {
                let ki = dep_key(ds[i as int]);
                if u < p {
                    assert(order@[t] == before[t] && order@[u] == before[u]);
                } else if u == p {
                    assert(order@[t] == before[t]);
                    assert(before[t] < i);
                } else if t == p {
                    let v = before[u - 1] as int;
                    assert(order@[u] == before[u - 1]);
                    let kp = dep_key(ds[before[p as int] as int]);
                    assert(args_less(ki, kp));
                    if u - 1 > p {
                        assert(dep_before(ds, before[p as int] as int, v));
                        if args_less(kp, dep_key(ds[v])) {
                            lemma_args_trans(ki, kp, dep_key(ds[v]));
                        } else {
                            lemma_args_lt_le(ki, kp, dep_key(ds[v]));
                        }
                    }
                } else if t < p {
                    assert(order@[t] == before[t] && order@[u] == before[u - 1]);
                    if t < u - 1 {
                        assert(dep_before(ds, before[t] as int, before[u - 1] as int));
                    } else {
                        assert(false);
                    }
                } else {
                    assert(order@[t] == before[t - 1] && order@[u] == before[u - 1]);
                    assert(dep_before(ds, before[t - 1] as int, before[u - 1] as int));
                }
            }
        }
        i = i + 1;
    }
    let ghost o = order@.map_values(|t: usize| t as int);
    proof {
        assert forall|t: int| 0 <= t < o.len() implies 0 <= #[trigger] o[t] < ds.len() by {
            assert(order@[t] < i);
        }
        assert forall|a: int, b: int| 0 <= a < o.len() && 0 <= b < o.len() && a != b implies o[a] != o[b] by {
            if a < b {
                assert(dep_before(ds, order@[a] as int, order@[b] as int));
            } else {
                assert(dep_before(ds, order@[b] as int, order@[a] as int));
            }
            if o[a] == o[b] {
                lemma_args_irrefl(dep_key(ds[o[a]]));
            }
        }
        assert forall|t: int, u: int| 0 <= t < u < o.len() implies dep_before(ds, #[trigger] o[t], #[trigger] o[u]) by {
            assert(dep_before(ds, order@[t] as int, order@[u] as int));
        }
        assert(dep_order(ds, o));
    }
    let mut deps: Vec<NafDep> = Vec::new();
    let mut t: usize = 0;
    while t < order.len()
        invariant
            recs@.map_values(|d: NafDep| dep_view(d)) == ds,
            o == order@.map_values(|t: usize| t as int),
            dep_order(ds, o),
            t <= order@.len(),
            deps@.map_values(|d: NafDep| dep_view(d)) == o.take(t as int).map_values(|q: int| ds[q]),
        decreases order@.len() - t,
    {
        assert(0 <= o[t as int] < ds.len());
        let d = copy_dep(&recs[order[t]]);
        assert(dep_view(recs@[order@[t as int] as int]) == ds[o[t as int]]);
        let ghost before = deps@;
        deps.push(d);
        proof {
            assert(deps@.map_values(|d: NafDep| dep_view(d)) =~= before.map_values(|d: NafDep| dep_view(d)).push(ds[o[t as int]]));
            assert(o.take(t + 1).map_values(|q: int| ds[q]) =~= o.take(t as int).map_values(|q: int| ds[q]).push(ds[o[t as int]]));
        }
        t = t + 1;
    }
    proof {
        assert(o.take(o.len() as int) =~= o);
    }
    deps
}


// ── The advisories ──────────────────────────────────────────────────

/// ` [activator a b]`, or nothing for a rule with no activator.
pub open spec fn activator_suffix(act: Seq<Seq<char>>) -> Seq<char> {
    if act.len() == 0 {
        Seq::empty()
    } else {
        " [activator "@ + join_with(act, " "@) + "]"@
    }
}

/// The stratification advisory for record `d`.
pub open spec fn derived_text(d: DepView) -> Seq<char> {
    "rule "@ + py_repr(d.0) + activator_suffix(d.1) + ": (absent …) watches rule-derived relation(s) "@
        + join_with(d.2, ", "@)
        + " — the rule set may not be stratified, in which case the engine reports one model rather than the several that exist. Sound either way (the guard is evaluated on the closure/world boundary, S1.21.8). See S1.7.4."@
}

/// The refutation-exposure advisory for record `d`, which concludes `c`
/// over the watched relations `w`.
pub open spec fn refutation_text(d: DepView, c: Seq<char>, w: Seq<Seq<char>>) -> Seq<char> {
    "rule "@ + py_repr(d.0) + activator_suffix(d.1) + ": concludes "@ + c + " from (absent …) over "@ + join_with(
        w,
        ", "@,
    )
        + ", which this program's hypothesis generator can still propose — so a state the search has not finished extending is refuted, and a commitment that would have discharged the guard is never reached (`dead` is not upward-closed under `absent`; Q-M1e.9). Write the constraint over a STORED negative, as std.algebra's `total` does — demand `(not (R ?a ?b))` for every candidate rather than concluding from its absence — or, if this is a requirement and not a refutation, state it as `(open ?R)` and let the verdict report what the state owes."@
}

/// Every advisory the records `ds` yield, in record order, as
/// `(category, text)`: a stratification line for each record that watches
/// a derived relation, then a refutation line for each that has one.
pub open spec fn warnings_of(ds: Seq<DepView>) -> Seq<(Seq<char>, Seq<char>)>
    decreases ds.len(),
{
    if ds.len() == 0 {
        Seq::empty()
    } else {
        let d = ds.last();
        let prev = warnings_of(ds.drop_last());
        let with_derived = if d.2.len() > 0 {
            prev.push((DERIVED_NAF@, derived_text(d)))
        } else {
            prev
        };
        match d.4 {
            Some((c, w)) => with_derived.push((REFUTATION_UNDER_ABSENT@, refutation_text(d, c, w))),
            None => with_derived,
        }
    }
}

pub open spec fn warning_views(ws: Seq<NafWarning>) -> Seq<(Seq<char>, Seq<char>)> {
    ws.map_values(|w: NafWarning| (w.category@, w.text@))
}

fn rule_head(d: &NafDep) -> (r: String)
    ensures
        r@ == "rule "@ + py_repr(d.rule@) + activator_suffix(texts(d.activator@)),
{
    let mut out = String::new();
    out.append("rule ");
    push_repr(&mut out, d.rule.as_str());
    if d.activator.len() > 0 {
        out.append(" [activator ");
        let joined = crate::text::join_strings(&d.activator, " ");
        out.append(joined.as_str());
        out.append("]");
    }
    assert(out@ =~= "rule "@ + py_repr(d.rule@) + activator_suffix(texts(d.activator@)));
    out
}

/// Every advisory line the NAF map over `plans` yields, in map order: one
/// walk, two questions. `eligible` is the switch — an empty set asks only
/// the stratification question, since a refutation line needs a relation
/// the generator can propose.
pub fn naf_warnings(plans: &Vec<PlanNaf>, eligible: &FxHashSet<u32>, falsum: u32, not: u32) -> (ws: Vec<NafWarning>)
    ensures
        exists|order: Seq<int>|
            #[trigger] dep_order(records_upto(plans@, plans@.len() as int, eligible@, falsum, not), order)
                && warning_views(ws@) == warnings_of(
                order.map_values(|t: int| records_upto(plans@, plans@.len() as int, eligible@, falsum, not)[t]),
            ),
{
    let deps = compute_naf_map(plans, eligible, falsum, not);
    let ghost ds = records_upto(plans@, plans@.len() as int, eligible@, falsum, not);
    let ghost order = choose|order: Seq<int>|
        #[trigger] dep_order(ds, order) && deps@.map_values(|d: NafDep| dep_view(d)) == order.map_values(|t: int| ds[t]);
    let ghost sorted = order.map_values(|t: int| ds[t]);
    let mut out: Vec<NafWarning> = Vec::new();
    let mut k: usize = 0;
    while k < deps.len()
        invariant
            deps@.map_values(|d: NafDep| dep_view(d)) == sorted,
            k <= deps@.len(),
            warning_views(out@) == warnings_of(sorted.take(k as int)),
        decreases deps@.len() - k,
    {
        let d = &deps[k];
        let ghost dv = dep_view(*d);
        assert(sorted[k as int] == dv);
        assert(sorted.take(k + 1).drop_last() =~= sorted.take(k as int));
        assert(sorted.take(k + 1).last() == dv);
        let head = rule_head(d);
        let ghost w0 = warning_views(out@);
        if d.derived.len() > 0 {
            let mut text = String::new();
            text.append(head.as_str());
            text.append(": (absent …) watches rule-derived relation(s) ");
            let joined = crate::text::join_strings(&d.derived, ", ");
            text.append(joined.as_str());
            text.append(
                " — the rule set may not be stratified, in which case the engine reports one model rather than the several that exist. Sound either way (the guard is evaluated on the closure/world boundary, S1.21.8). See S1.7.4.",
            );
            assert(text@ =~= derived_text(dv));
            out.push(NafWarning { category: DERIVED_NAF, text });
            assert(warning_views(out@) =~= w0.push((DERIVED_NAF@, derived_text(dv))));
        }
        let ghost w1 = warning_views(out@);
        match &d.refutation {
            Some(r) => {
                let mut text = String::new();
                text.append(head.as_str());
                text.append(": concludes ");
                text.append(r.concludes);
                text.append(" from (absent …) over ");
                let joined = crate::text::join_strings(&r.watching, ", ");
                text.append(joined.as_str());
                text.append(
                    ", which this program's hypothesis generator can still propose — so a state the search has not finished extending is refuted, and a commitment that would have discharged the guard is never reached (`dead` is not upward-closed under `absent`; Q-M1e.9). Write the constraint over a STORED negative, as std.algebra's `total` does — demand `(not (R ?a ?b))` for every candidate rather than concluding from its absence — or, if this is a requirement and not a refutation, state it as `(open ?R)` and let the verdict report what the state owes.",
                );
                assert(text@ =~= refutation_text(dv, r.concludes@, texts(r.watching@)));
                out.push(NafWarning { category: REFUTATION_UNDER_ABSENT, text });
                assert(warning_views(out@) =~= w1.push(
                    (REFUTATION_UNDER_ABSENT@, refutation_text(dv, r.concludes@, texts(r.watching@))),
                ));
            },
            None => {},
        }
        k = k + 1;
    }
    assert(sorted.take(sorted.len() as int) =~= sorted);
    out
}

/// The stratification lines alone: [`naf_warnings`] over an empty
/// eligible set, the same scan asked one question.
pub fn derived_naf_warnings(plans: &Vec<PlanNaf>, falsum: u32, not: u32) -> (lines: Vec<String>)
    ensures
        exists|order: Seq<int>|
            #[trigger] dep_order(records_upto(plans@, plans@.len() as int, Set::empty(), falsum, not), order)
                && texts(lines@) == warnings_of(
                order.map_values(|t: int| records_upto(plans@, plans@.len() as int, Set::empty(), falsum, not)[t]),
            ).map_values(|w: (Seq<char>, Seq<char>)| w.1),
{
    let none = empty_set();
    let ws = naf_warnings(plans, &none, falsum, not);
    let mut lines: Vec<String> = Vec::new();
    let mut k: usize = 0;
    while k < ws.len()
        invariant
            k <= ws@.len(),
            texts(lines@) == warning_views(ws@).take(k as int).map_values(|w: (Seq<char>, Seq<char>)| w.1),
        decreases ws@.len() - k,
    {
        let ghost before = texts(lines@);
        lines.push(ws[k].text.clone());
        assert(texts(lines@) =~= before.push(ws@[k as int].text@));
        assert(warning_views(ws@).take(k + 1) =~= warning_views(ws@).take(k as int).push(warning_views(ws@)[k as int]));
        assert(warning_views(ws@).take(k + 1).map_values(|w: (Seq<char>, Seq<char>)| w.1) =~= warning_views(ws@).take(k as int).map_values(|w: (Seq<char>, Seq<char>)| w.1).push(ws@[k as int].text@));
        k = k + 1;
    }
    assert(warning_views(ws@).take(ws@.len() as int) =~= warning_views(ws@));
    lines
}

} // verus!
