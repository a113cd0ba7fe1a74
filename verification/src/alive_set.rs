//! The alive-set invariant, as a predicate the engine can evaluate: rules
//! assert no new objects, no new relations, and hypotheses connect
//! existing names only. The baseline is what the *loaded* program names —
//! every symbol its facts mention at any depth, plus the relation registry
//! and its signatures — and a breach is a fact naming something outside it.
use vstd::prelude::*;

use rustc_hash::FxHashSet;

use crate::events::sexpr;
use crate::facts::{lookup, sym, walk_into, FactTable};
use crate::fxset::{contains_id, empty_set, insert_all, len_ids};
use crate::text::lemma_concat_contains;

verus! {

#[derive(Clone, Copy, PartialEq, Eq, Debug)]
pub enum BreachKind {
    /// An argument names an object the ontology never had.
    NewObject,
    /// The fact's head is not a relation the program registered.
    NewRelation,
}

impl BreachKind {
    pub open spec fn name(self) -> Seq<char> {
        match self {
            BreachKind::NewObject => seq!['n', 'e', 'w', '-', 'o', 'b', 'j', 'e', 'c', 't'],
            BreachKind::NewRelation => seq![
                'n', 'e', 'w', '-', 'r', 'e', 'l', 'a', 't', 'i', 'o', 'n'
            ],
        }
    }

    pub fn as_str(self) -> (s: &'static str)
        ensures
            s@ == self.name(),
    {
        match self {
            BreachKind::NewObject => {
                proof {
                    reveal_strlit("new-object");
                }
                "new-object"
            },
            BreachKind::NewRelation => {
                proof {
                    reveal_strlit("new-relation");
                }
                "new-relation"
            },
        }
    }
}


/// What the loaded program declares, as the baseline reads it.
pub struct Registry {
    /// The relation registry — declared ∪ auto-vivified — each relation
    /// with its signature's types.
    pub relations: Vec<(u32, Vec<u32>)>,
    /// The relations the rules', hrules' and obligations' `:assert`s name:
    /// a relation a rule derives and no fact states is in no registry.
    pub assertable: Vec<u32>,
    /// The kernel's own vocabulary, as far as the interner holds it: a
    /// stored `(not X)` or `(false)` has a reserved head no program declared.
    pub kernel: Vec<u32>,
}

/// What the loaded program may name, and what it may name a fact about.
pub struct Universe {
    objects: FxHashSet<u32>,
    relations: FxHashSet<u32>,
    /// How many symbols the interner held when the baseline was taken.
    interned: u32,
}

/// One fact that names something the loaded program did not.
#[derive(Clone, Copy, PartialEq, Eq, Debug)]
pub struct Breach {
    /// The fact that carries the name.
    pub fact: u32,
    /// The offending symbol.
    pub name: u32,
    pub kind: BreachKind,
}

/// The registry's relation names, in order.
pub open spec fn registered(reg: &Registry) -> Seq<u32> {
    reg.relations@.map_values(|r: (u32, Vec<u32>)| r.0)
}

/// The types of the first `k` registered relations' signatures, in order.
pub open spec fn sig_types(rels: Seq<(u32, Vec<u32>)>, k: int) -> Seq<u32>
    decreases k,
{
    if k <= 0 || k > rels.len() {
        Seq::empty()
    } else {
        sig_types(rels, k - 1) + rels[k - 1].1@
    }
}

/// The names the first `k` loaded facts mention: each fact's head, then
/// every name its arguments reach.
pub open spec fn fact_names(tbl: &FactTable, kb: Seq<u32>, k: int) -> Seq<u32>
    decreases k,
{
    if k <= 0 || k > kb.len() {
        Seq::empty()
    } else {
        fact_names(tbl, kb, k - 1) + seq![tbl.rows@[kb[k - 1] as int].rel] + tbl.reached(kb[k - 1] as int)
    }
}

/// The relations the program may state facts about: the registry, what
/// the rules can assert, and the kernel's vocabulary.
pub open spec fn baseline_relations(reg: &Registry) -> Set<u32> {
    Set::new(|x: u32| registered(reg).contains(x) || reg.assertable@.contains(x) || reg.kernel@.contains(x))
}

/// The names the loaded program reaches: its relations, their signatures'
/// types, and every name the loaded facts mention at any depth.
pub open spec fn baseline_objects(reg: &Registry, tbl: &FactTable, kb: Seq<u32>) -> Set<u32> {
    Set::new(
        |x: u32|
            baseline_relations(reg).contains(x) || sig_types(reg.relations@, reg.relations@.len() as int).contains(x)
                || fact_names(tbl, kb, kb.len() as int).contains(x),
    )
}

/// The breaches of fact `f` against objects `objs` and relations `rels`: its
/// head, if unregistered, then each name its arguments reach that the
/// baseline lacks, in walk order.
pub open spec fn fact_breaches(objs: Set<u32>, rels: Set<u32>, tbl: &FactTable, f: u32) -> Seq<Breach> {
    let rel = tbl.rows@[f as int].rel;
    (if rels.contains(rel) {
        Seq::empty()
    } else {
        seq![Breach { fact: f, name: rel, kind: BreachKind::NewRelation }]
    }) + tbl.reached(f as int).filter(|s: u32| !objs.contains(s)).map_values(
        |s: u32| Breach { fact: f, name: s, kind: BreachKind::NewObject },
    )
}

/// The breaches of the KB's facts `from .. k`, in order.
pub open spec fn breaches_upto(objs: Set<u32>, rels: Set<u32>, tbl: &FactTable, kb: Seq<u32>, from: int, k: int) -> Seq<Breach>
    decreases k,
{
    if k <= from || k <= 0 || k > kb.len() {
        Seq::empty()
    } else {
        breaches_upto(objs, rels, tbl, kb, from, k - 1) + fact_breaches(objs, rels, tbl, kb[k - 1])
    }
}

/// Every fact id of `kb` is a row of the table.
pub open spec fn facts_in(tbl: &FactTable, kb: Seq<u32>) -> bool {
    forall|i: int| 0 <= i < kb.len() ==> (#[trigger] kb[i]) < tbl.rows@.len()
}

impl Universe {
    pub closed spec fn object_set(&self) -> Set<u32> {
        self.objects@
    }

    pub closed spec fn relation_set(&self) -> Set<u32> {
        self.relations@
    }

    pub closed spec fn mark(&self) -> u32 {
        self.interned
    }

    /// The baseline, taken from a **loaded** KB — before any saturation,
    /// else whatever saturation invented would already be in it.
    pub fn of(reg: &Registry, tbl: &FactTable, kb: &Vec<u32>) -> (u: Universe)
        requires
            tbl.wf(),
            facts_in(tbl, kb@),
            tbl.names@.len() <= u32::MAX,
        ensures
            u.relation_set() == baseline_relations(reg),
            u.object_set() == baseline_objects(reg, tbl, kb@),
            u.mark() == tbl.names@.len(),
    {
        // The relation names: the registry, the assertable, the kernel's.
        let mut rels: Vec<u32> = Vec::new();
        let mut types: Vec<u32> = Vec::new();
        let mut i: usize = 0;
        while i < reg.relations.len()
            invariant
                i <= reg.relations@.len(),
                rels@ == registered(reg).take(i as int),
                types@ == sig_types(reg.relations@, i as int),
            decreases reg.relations@.len() - i,
        {
            rels.push(reg.relations[i].0);
            assert(registered(reg).take(i + 1) =~= registered(reg).take(i as int).push(reg.relations@[i as int].0));
            let sig = &reg.relations[i].1;
            let mut t: usize = 0;
            let ghost t0 = types@;
            while t < sig.len()
                invariant
                    t <= sig@.len(),
                    types@ == t0 + sig@.take(t as int),
                decreases sig@.len() - t,
            {
                types.push(sig[t]);
                assert(t0 + sig@.take(t + 1) =~= (t0 + sig@.take(t as int)).push(sig@[t as int]));
                t = t + 1;
            }
            assert(sig@.take(sig@.len() as int) =~= sig@);
            i = i + 1;
        }
        assert(registered(reg).take(reg.relations@.len() as int) =~= registered(reg));
        let mut j: usize = 0;
        let ghost r0 = rels@;
        while j < reg.assertable.len()
            invariant
                j <= reg.assertable@.len(),
                rels@ == r0 + reg.assertable@.take(j as int),
            decreases reg.assertable@.len() - j,
        {
            rels.push(reg.assertable[j]);
            assert(r0 + reg.assertable@.take(j + 1) =~= (r0 + reg.assertable@.take(j as int)).push(reg.assertable@[j as int]));
            j = j + 1;
        }
        assert(reg.assertable@.take(reg.assertable@.len() as int) =~= reg.assertable@);
        let mut j: usize = 0;
        let ghost r1 = rels@;
        while j < reg.kernel.len()
            invariant
                j <= reg.kernel@.len(),
                rels@ == r1 + reg.kernel@.take(j as int),
            decreases reg.kernel@.len() - j,
        {
            rels.push(reg.kernel[j]);
            assert(r1 + reg.kernel@.take(j + 1) =~= (r1 + reg.kernel@.take(j as int)).push(reg.kernel@[j as int]));
            j = j + 1;
        }
        assert(reg.kernel@.take(reg.kernel@.len() as int) =~= reg.kernel@);
        // The names the loaded facts mention.
        let mut names: Vec<u32> = Vec::new();
        let mut k: usize = 0;
        while k < kb.len()
            invariant
                tbl.wf(),
                facts_in(tbl, kb@),
                k <= kb@.len(),
                names@ == fact_names(tbl, kb@, k as int),
            decreases kb@.len() - k,
        {
            let f = kb[k];
            names.push(tbl.rows[f as usize].rel);
            walk_into(tbl, f, &mut names);
            k = k + 1;
        }
        let mut relations = empty_set();
        insert_all(&mut relations, &rels);
        let mut objects = empty_set();
        insert_all(&mut objects, &rels);
        insert_all(&mut objects, &types);
        insert_all(&mut objects, &names);
        proof {
            assert forall|x: u32| rels@.contains(x) <==> baseline_relations(reg).contains(x) by {
                lemma_concat_contains(registered(reg) + reg.assertable@, reg.kernel@, x);
                lemma_concat_contains(registered(reg), reg.assertable@, x);
            }
            assert(relations@ =~= baseline_relations(reg));
            assert(objects@ =~= baseline_objects(reg, tbl, kb@));
        }
        Universe { objects, relations, interned: tbl.names.len() as u32 }
    }

    /// Was this symbol numbered after the baseline was taken?
    pub fn interned_late(&self, name: u32) -> (r: bool)
        ensures
            r == (name >= self.mark()),
    {
        name >= self.interned
    }

    /// Every breach of the KB's facts from index `from` on, appended to
    /// `out` in fact order — a caller that has checked a prefix pays only
    /// for the rest.
    pub fn breaches(&self, tbl: &FactTable, kb: &Vec<u32>, from: usize, out: &mut Vec<Breach>)
        requires
            tbl.wf(),
            facts_in(tbl, kb@),
        ensures
            final(out)@ == old(out)@ + breaches_upto(
                self.object_set(),
                self.relation_set(),
                tbl,
                kb@,
                from as int,
                kb@.len() as int,
            ),
    {
        let ghost start = old(out)@;
        let ghost objs = self.object_set();
        let ghost rels = self.relation_set();
        let mut k: usize = from;
        if k > kb.len() {
            k = kb.len();
        }
        proof {
            assert(breaches_upto(objs, rels, tbl, kb@, from as int, k as int) =~= Seq::<Breach>::empty()) by {
                if k as int > from as int {
                    assert(false);
                }
            }
            assert(out@ =~= start + breaches_upto(objs, rels, tbl, kb@, from as int, k as int));
        }
        while k < kb.len()
            invariant
                tbl.wf(),
                facts_in(tbl, kb@),
                objs == self.object_set(),
                rels == self.relation_set(),
                from <= k || k == kb@.len(),
                k <= kb@.len(),
                out@ == start + breaches_upto(objs, rels, tbl, kb@, from as int, k as int),
            decreases kb@.len() - k,
        {
            let f = kb[k];
            let rel = tbl.rows[f as usize].rel;
            let ghost before = out@;
            if !contains_id(&self.relations, rel) {
                out.push(Breach { fact: f, name: rel, kind: BreachKind::NewRelation });
            }
            let ghost mid = out@;
            let mut w: Vec<u32> = Vec::new();
            walk_into(tbl, f, &mut w);
            assert(w@ =~= tbl.reached(f as int));
            let mut t: usize = 0;
            while t < w.len()
                invariant
                    t <= w@.len(),
                    objs == self.object_set(),
                    out@ == mid + w@.take(t as int).filter(|s: u32| !objs.contains(s)).map_values(
                        |s: u32| Breach { fact: f, name: s, kind: BreachKind::NewObject },
                    ),
                decreases w@.len() - t,
            {
                let s = w[t];
                proof {
                    assert(w@.take(t + 1) =~= w@.take(t as int).push(s));
                    w@.take(t as int).lemma_filter_push(s, |s: u32| !objs.contains(s));
                }
                if !contains_id(&self.objects, s) {
                    out.push(Breach { fact: f, name: s, kind: BreachKind::NewObject });
                }
                proof {
                    assert(out@ =~= mid + w@.take(t + 1).filter(|s: u32| !objs.contains(s)).map_values(
                        |s: u32| Breach { fact: f, name: s, kind: BreachKind::NewObject },
                    ));
                }
                t = t + 1;
            }
            proof {
                assert(w@.take(w@.len() as int) =~= w@);
                assert(out@ =~= before + fact_breaches(objs, rels, tbl, f));
                assert(out@ =~= start + breaches_upto(objs, rels, tbl, kb@, from as int, k + 1));
            }
            k = k + 1;
        }
    }

    /// How many objects and relations the baseline holds.
    pub fn len(&self) -> (r: (usize, usize))
        ensures
            r.0 == self.object_set().len(),
            r.1 == self.relation_set().len(),
    {
        (len_ids(&self.objects), len_ids(&self.relations))
    }

    pub fn is_empty(&self) -> (r: bool)
        ensures
            r == self.object_set().is_empty(),
    {
        self.objects.is_empty()
    }
}


proof fn lemma_fact_names_cover(tbl: &FactTable, kb: Seq<u32>, n: int, i: int, x: u32)
    requires
        0 <= i < n <= kb.len(),
        tbl.rows@[kb[i] as int].rel == x || tbl.reached(kb[i] as int).contains(x),
    ensures
        fact_names(tbl, kb, n).contains(x),
    decreases n,
{
    let prev = fact_names(tbl, kb, n - 1);
    let here = seq![tbl.rows@[kb[n - 1] as int].rel];
    let walk = tbl.reached(kb[n - 1] as int);
    assert(fact_names(tbl, kb, n) == prev + here + walk);
    lemma_concat_contains(prev + here, walk, x);
    lemma_concat_contains(prev, here, x);
    if i < n - 1 {
        lemma_fact_names_cover(tbl, kb, n - 1, i, x);
    } else if tbl.rows@[kb[i] as int].rel == x {
        assert(here[0] == x);
    }
}

/// The invariant holds where the baseline was taken: checked against the
/// universe of its own loaded KB, a KB whose facts' heads are registered —
/// as the loader's auto-vivification makes them — has no breach.
pub proof fn lemma_loaded_kb_has_no_breach(reg: &Registry, tbl: &FactTable, kb: Seq<u32>)
    requires
        tbl.wf(),
        facts_in(tbl, kb),
        forall|i: int| 0 <= i < kb.len() ==> baseline_relations(reg).contains(#[trigger] tbl.rows@[kb[i] as int].rel),
    ensures
        breaches_upto(baseline_objects(reg, tbl, kb), baseline_relations(reg), tbl, kb, 0, kb.len() as int)
            == Seq::<Breach>::empty(),
{
    lemma_prefix_clean(reg, tbl, kb, kb.len() as int);
}

proof fn lemma_prefix_clean(reg: &Registry, tbl: &FactTable, kb: Seq<u32>, k: int)
    requires
        tbl.wf(),
        facts_in(tbl, kb),
        forall|i: int| 0 <= i < kb.len() ==> baseline_relations(reg).contains(#[trigger] tbl.rows@[kb[i] as int].rel),
        0 <= k <= kb.len(),
    ensures
        breaches_upto(baseline_objects(reg, tbl, kb), baseline_relations(reg), tbl, kb, 0, k) == Seq::<Breach>::empty(),
    decreases k,
{
    let objs = baseline_objects(reg, tbl, kb);
    let rels = baseline_relations(reg);
    if k > 0 {
        lemma_prefix_clean(reg, tbl, kb, k - 1);
        let f = kb[k - 1];
        let walk = tbl.reached(f as int);
        let p = |s: u32| !objs.contains(s);
        let bad = walk.filter(p);
        assert(bad.len() == 0) by {
            if bad.len() > 0 {
                walk.lemma_filter_pred(p, 0);
                let e = bad[0];
                assert(bad.contains(e));
                walk.lemma_filter_contains_rev(p, e);
                assert(walk.contains(e));
                assert(p(e));
                lemma_fact_names_cover(tbl, kb, kb.len() as int, k - 1, e);
                assert(objs.contains(e));
            }
        }
        assert(rels.contains(tbl.rows@[kb[k - 1] as int].rel));
        assert(fact_breaches(objs, rels, tbl, f) =~= Seq::<Breach>::empty());
        assert(breaches_upto(objs, rels, tbl, kb, 0, k) =~= Seq::<Breach>::empty());
    }
}


// ── Rendering ────────────────────────────────────────────────────────

impl Breach {
    /// `<kind>: `<name>` in <fact>` — the one line a `warn` event wants.
    pub fn render(&self, tbl: &FactTable) -> (s: String)
        requires
            tbl.wf(),
            self.fact < tbl.rows@.len(),
            self.name < tbl.names@.len(),
        ensures
            s@ == self.kind.name() + ": `"@ + tbl.name(self.name) + "` in "@ + tbl.fact_text(self.fact as int),
    {
        let mut out = String::new();
        out.append(self.kind.as_str());
        out.append(": `");
        out.append(tbl.names[self.name as usize].as_str());
        out.append("` in ");
        let fact = sexpr(tbl, self.fact);
        out.append(fact.as_str());
        out
    }
}

// ── What a rule's `:assert` can introduce ────────────────────────────

/// An `:assert` expression, as the constants walk reads it.
pub enum AssertExpr {
    /// An atom: a name or a number.
    Atom(String),
    /// `(head args…)`; `head` is the head atom's name, when it is one.
    Form { head: Option<String>, args: Vec<AssertExpr> },
    /// `:key value` — only the value contributes.
    KwPair(Box<AssertExpr>),
    /// Anything else: a variable contributes nothing, being bound by the
    /// match to a value the KB already holds.
    Other,
}

/// A declarator and its `:assert`, if it has one.
pub struct AssertSite {
    pub rule: u32,
    pub assert: Option<AssertExpr>,
}

/// A rule that can introduce a name the loaded program does not have.
#[derive(Clone, Copy, PartialEq, Eq, Debug)]
pub struct RuleBreach {
    /// The declarator's name.
    pub rule: u32,
    /// `rule` / `hrule` / `obligation` — which registry it came from.
    pub which: &'static str,
    pub name: u32,
    pub kind: BreachKind,
}

/// Every constant leaf of `e`, with a flag for *this one is a fact head*.
/// The structural primitives are transparent: `(and (p A) (not (q B)))`
/// asserts about `p` and `q`, not about `and` and `not`.
pub open spec fn constants(e: AssertExpr, head_pos: bool, structural: Seq<Seq<char>>) -> Seq<(Seq<char>, bool)>
    decreases e,
{
    match e {
        AssertExpr::Atom(s) => seq![(s@, head_pos)],
        AssertExpr::Form { head, args } => (match head {
            Some(h) => if structural.contains(h@) {
                Seq::empty()
            } else {
                seq![(h@, true)]
            },
            None => Seq::empty(),
        }) + constants_of_args(args@, structural),
        AssertExpr::KwPair(v) => constants(*v, false, structural),
        AssertExpr::Other => Seq::empty(),
    }
}

/// The constants of a form's arguments, in order.
pub open spec fn constants_of_args(args: Seq<AssertExpr>, structural: Seq<Seq<char>>) -> Seq<(Seq<char>, bool)>
    decreases args,
{
    if args.len() == 0 {
        Seq::empty()
    } else {
        constants_of_args(args.drop_last(), structural) + constants(args.last(), false, structural)
    }
}

/// Scanning the first `k` constants of declarator `rule`'s `:assert`: the
/// breaches found, and the names already reported for it.
pub open spec fn scan_constants(
    objs: Set<u32>,
    rels: Set<u32>,
    tbl: &FactTable,
    rule: u32,
    which: &'static str,
    consts: Seq<(Seq<char>, bool)>,
    k: int,
) -> (Seq<RuleBreach>, Seq<u32>)
    decreases k,
{
    if k <= 0 || k > consts.len() {
        (Seq::empty(), Seq::empty())
    } else {
        let (out, seen) = scan_constants(objs, rels, tbl, rule, which, consts, k - 1);
        let (text, head) = consts[k - 1];
        match lookup(tbl, text) {
            None => (out, seen),
            Some(s) => {
                let known = if head {
                    rels.contains(s)
                } else {
                    objs.contains(s)
                };
                if known || seen.contains(s) {
                    (out, seen)
                } else {
                    (
                        out.push(
                            RuleBreach {
                                rule,
                                which,
                                name: s,
                                kind: if head {
                                    BreachKind::NewRelation
                                } else {
                                    BreachKind::NewObject
                                },
                            },
                        ),
                        seen.push(s),
                    )
                }
            },
        }
    }
}

/// The breaches of the first `k` declarators of one registry, in order.
pub open spec fn registry_breaches(
    objs: Set<u32>,
    rels: Set<u32>,
    tbl: &FactTable,
    sites: Seq<AssertSite>,
    which: &'static str,
    structural: Seq<Seq<char>>,
    k: int,
) -> Seq<RuleBreach>
    decreases k,
{
    if k <= 0 || k > sites.len() {
        Seq::empty()
    } else {
        let prev = registry_breaches(objs, rels, tbl, sites, which, structural, k - 1);
        match sites[k - 1].assert {
            None => prev,
            Some(e) => {
                let consts = constants(e, true, structural);
                prev + scan_constants(objs, rels, tbl, sites[k - 1].rule, which, consts, consts.len() as int).0
            },
        }
    }
}

fn walk_constants(e: &AssertExpr, head_pos: bool, structural: &Vec<String>, out: &mut Vec<(String, bool)>)
    ensures
        final(out)@.map_values(|c: (String, bool)| (c.0@, c.1)) == old(out)@.map_values(|c: (String, bool)| (c.0@, c.1))
            + constants(*e, head_pos, crate::text::texts(structural@)),
    decreases e,
{
    let ghost st = crate::text::texts(structural@);
    let ghost start = old(out)@.map_values(|c: (String, bool)| (c.0@, c.1));
    match e {
        AssertExpr::Atom(s) => {
            out.push((s.clone(), head_pos));
            assert(out@.map_values(|c: (String, bool)| (c.0@, c.1)) =~= start + constants(*e, head_pos, st));
        },
        AssertExpr::Form { head, args } => {
            match head {
                Some(h) => {
                    if !crate::text::contains_text(structural, h.as_str()) {
                        out.push((h.clone(), true));
                    }
                },
                None => {},
            }
            let ghost mid = out@.map_values(|c: (String, bool)| (c.0@, c.1));
            let mut i: usize = 0;
            while i < args.len()
                invariant
                    i <= args@.len(),
                    (*e) is Form,
                    (*e)->args == *args,
                    st == crate::text::texts(structural@),
                    out@.map_values(|c: (String, bool)| (c.0@, c.1)) == mid + constants_of_args(args@.take(i as int), st),
                decreases args@.len() - i,
            {
                assert(args@.take(i + 1).drop_last() =~= args@.take(i as int));
                assert(args@.take(i + 1).last() == args@[i as int]);
                assert(decreases_to!(*e => args@[i as int])) by {
                    assert(decreases_to!(*e => (*e)->args));
                    assert((*e)->args == *args);
                    assert(decreases_to!(*args => args@));
                    assert(decreases_to!(args@ => args@[i as int]));
                }
                walk_constants(&args[i], false, structural, out);
                proof {
                    assert(out@.map_values(|c: (String, bool)| (c.0@, c.1)) =~= mid + constants_of_args(args@.take(i + 1), st));
                }
                i = i + 1;
            }
            assert(args@.take(args@.len() as int) =~= args@);
            assert(out@.map_values(|c: (String, bool)| (c.0@, c.1)) =~= start + constants(*e, head_pos, st));
        },
        AssertExpr::KwPair(v) => {
            walk_constants(v, false, structural, out);
        },
        AssertExpr::Other => {
            assert(out@.map_values(|c: (String, bool)| (c.0@, c.1)) =~= start + constants(*e, head_pos, st));
        },
    }
}


fn has_id(v: &Vec<u32>, x: u32) -> (r: bool)
    ensures
        r == v@.contains(x),
{
    let mut i: usize = 0;
    while i < v.len()
        invariant
            i <= v@.len(),
            forall|q: int| 0 <= q < i ==> v@[q] != x,
        decreases v@.len() - i,
    {
        if v[i] == x {
            assert(v@[i as int] == x);
            return true;
        }
        i = i + 1;
    }
    false
}

impl Universe {
    fn scan_registry(
        &self,
        tbl: &FactTable,
        sites: &Vec<AssertSite>,
        which: &'static str,
        structural: &Vec<String>,
        out: &mut Vec<RuleBreach>,
    )
        requires
            tbl.names@.len() <= u32::MAX,
        ensures
            final(out)@ == old(out)@ + registry_breaches(
                self.object_set(),
                self.relation_set(),
                tbl,
                sites@,
                which,
                crate::text::texts(structural@),
                sites@.len() as int,
            ),
    {
        let ghost st = crate::text::texts(structural@);
        let ghost objs = self.object_set();
        let ghost rels = self.relation_set();
        let ghost start = old(out)@;
        let mut k: usize = 0;
        while k < sites.len()
            invariant
                tbl.names@.len() <= u32::MAX,
                k <= sites@.len(),
                st == crate::text::texts(structural@),
                objs == self.object_set(),
                rels == self.relation_set(),
                out@ == start + registry_breaches(objs, rels, tbl, sites@, which, st, k as int),
            decreases sites@.len() - k,
        {
            let site = &sites[k];
            match &site.assert {
                None => {},
                Some(e) => {
                    let mut consts: Vec<(String, bool)> = Vec::new();
                    walk_constants(e, true, structural, &mut consts);
                    let ghost cs = consts@.map_values(|c: (String, bool)| (c.0@, c.1));
                    assert(cs =~= constants(*e, true, st));
                    let ghost mid = out@;
                    let mut seen: Vec<u32> = Vec::new();
                    let mut j: usize = 0;
                    while j < consts.len()
                        invariant
                            tbl.names@.len() <= u32::MAX,
                            j <= consts@.len(),
                            cs == consts@.map_values(|c: (String, bool)| (c.0@, c.1)),
                            objs == self.object_set(),
                            rels == self.relation_set(),
                            out@ == mid + scan_constants(objs, rels, tbl, site.rule, which, cs, j as int).0,
                            seen@ == scan_constants(objs, rels, tbl, site.rule, which, cs, j as int).1,
                        decreases consts@.len() - j,
                    {
                        let text = consts[j].0.as_str();
                        let head = consts[j].1;
                        assert(cs[j as int] == (text@, head));
                        match sym(tbl, text) {
                            None => {},
                            Some(s) => {
                                let known = if head {
                                    contains_id(&self.relations, s)
                                } else {
                                    contains_id(&self.objects, s)
                                };
                                if !known && !has_id(&seen, s) {
                                    let kind = if head {
                                        BreachKind::NewRelation
                                    } else {
                                        BreachKind::NewObject
                                    };
                                    out.push(RuleBreach { rule: site.rule, which, name: s, kind });
                                    seen.push(s);
                                }
                            },
                        }
                        j = j + 1;
                    }
                    assert(out@ =~= start + registry_breaches(objs, rels, tbl, sites@, which, st, k + 1));
                },
            }
            k = k + 1;
        }
    }

    /// Every constant a declarator's `:assert` can put into a KB that the
    /// baseline does not have — the invariant read as what it says. Total:
    /// it answers for every run the program could have. Each name is
    /// reported once per declarator; `structural` names the primitives the
    /// walk sees through.
    pub fn rule_breaches(
        &self,
        tbl: &FactTable,
        rules: &Vec<AssertSite>,
        hrules: &Vec<AssertSite>,
        obligations: &Vec<AssertSite>,
        structural: &Vec<String>,
    ) -> (out: Vec<RuleBreach>)
        requires
            tbl.names@.len() <= u32::MAX,
        ensures
            out@ == registry_breaches(
                self.object_set(),
                self.relation_set(),
                tbl,
                rules@,
                "rule",
                crate::text::texts(structural@),
                rules@.len() as int,
            ) + registry_breaches(
                self.object_set(),
                self.relation_set(),
                tbl,
                hrules@,
                "hrule",
                crate::text::texts(structural@),
                hrules@.len() as int,
            ) + registry_breaches(
                self.object_set(),
                self.relation_set(),
                tbl,
                obligations@,
                "obligation",
                crate::text::texts(structural@),
                obligations@.len() as int,
            ),
    {
        let mut out: Vec<RuleBreach> = Vec::new();
        self.scan_registry(tbl, rules, "rule", structural, &mut out);
        self.scan_registry(tbl, hrules, "hrule", structural, &mut out);
        self.scan_registry(tbl, obligations, "obligation", structural, &mut out);
        assert(out@ =~= Seq::<RuleBreach>::empty() + registry_breaches(self.object_set(), self.relation_set(), tbl, rules@, "rule", crate::text::texts(structural@), rules@.len() as int) + registry_breaches(self.object_set(), self.relation_set(), tbl, hrules@, "hrule", crate::text::texts(structural@), hrules@.len() as int) + registry_breaches(self.object_set(), self.relation_set(), tbl, obligations@, "obligation", crate::text::texts(structural@), obligations@.len() as int));
        out
    }
}

impl RuleBreach {
    /// `<kind>: `<name>`, asserted by <which> `<rule>``.
    pub fn render(&self, tbl: &FactTable) -> (s: String)
        requires
            self.name < tbl.names@.len(),
            self.rule < tbl.names@.len(),
        ensures
            s@ == self.kind.name() + ": `"@ + tbl.name(self.name) + "`, asserted by "@ + self.which@ + " `"@ + tbl.name(
                self.rule,
            ) + "`"@,
    {
        let mut out = String::new();
        out.append(self.kind.as_str());
        out.append(": `");
        out.append(tbl.names[self.name as usize].as_str());
        out.append("`, asserted by ");
        out.append(self.which);
        out.append(" `");
        out.append(tbl.names[self.rule as usize].as_str());
        out.append("`");
        out
    }
}

} // verus!
