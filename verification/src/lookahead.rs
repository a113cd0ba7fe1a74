//! One-step contradiction lookahead — the costliest hypothesis filter.
//!
//! Before a candidate `h` is emitted, ask the cheap question: does adding
//! `h` to the already-saturated knowledge base produce a contradiction in a
//! single rule firing? The engine seeds each rule's premises with `h` and
//! runs the rest against the saturated KB; this module judges what those
//! probes found.
//!
//! The filter may only ever under-approximate death: a missed kill just
//! forks and dies normally, but a hypothesis wrongly reported dead is
//! silently lost. So a disjunct whose guards cannot be judged in the world
//! with `h` is skipped, a match whose guards fail in `kb` plus `h` is
//! skipped, a malformed conclusion never kills, and a conclusion kills only
//! when the world holding `h` and it is contradictory.
use vstd::prelude::*;

use crate::commitment::lemma_pair_found;
use crate::contradiction::{is_negated, FactBase, Shape};
use crate::facts::{Arg, FactTable};
use crate::match_::{held_ok, holds_at, walk, Matcher, NafGuard, Step};

verus! {

/// A knowledge base holding `h` and the derived `f`, besides what `kb`
/// holds, is contradictory: `f` is a `⊥`; or `f` is `(not g)` and `g` is
/// `h` or held; or `f` is positive and some held `(not f)` wraps it.
pub open spec fn dies_with(kb: &FactBase, f: u32, h: u32) -> bool {
    match kb.shapes@[f as int] {
        Shape::False => true,
        Shape::Not(inner) => match inner {
            Some(g) => g == h || kb.held@[g as int],
            None => false,
        },
        Shape::Positive => kb.negated(f),
    }
}

/// Whether `kb` holding `h` and the derived `f` is contradictory — the
/// detector's two shapes, in the hypothetical world: `h` is not in `kb`.
pub fn is_contradiction(kb: &FactBase, f: u32, h: u32) -> (r: bool)
    requires
        kb.wf(),
        f < kb.shapes@.len(),
    ensures
        r == dies_with(kb, f, h),
{
    match kb.shapes[f as usize] {
        Shape::False => true,
        Shape::Not(inner) => match inner {
            Some(g) => {
                if g == h {
                    true
                } else {
                    assert(g < kb.held@.len());
                    kb.held[g as usize]
                }
            },
            None => false,
        },
        Shape::Positive => is_negated(kb, f),
    }
}

/// What one seeded match of one rule disjunct found.
pub struct Probe {
    /// The disjunct's guards can be judged in the world with `h`: none of
    /// them holds a nested absent, which adding `h` could make pass.
    pub judgeable: bool,
    /// The match's guards find no match in `kb`, and `h` creates none.
    pub guards_pass: bool,
    /// The rule's fact-shaped conclusions under the match, in template
    /// order; `None` where a template could not be built.
    pub conclusions: Vec<Option<u32>>,
}

/// Probe `i` kills `h` through its `j`-th conclusion.
pub open spec fn kills_at(kb: &FactBase, h: u32, probes: Seq<Probe>, i: int, j: int) -> bool {
    &&& 0 <= i < probes.len()
    &&& probes[i].judgeable
    &&& probes[i].guards_pass
    &&& 0 <= j < probes[i].conclusions@.len()
    &&& probes[i].conclusions@[j] matches Some(f) && dies_with(kb, f, h)
}

/// A kill is one probe's own doing: probe `i` kills `h` exactly when that
/// probe is judgeable, its own guards pass, and one of its own conclusions
/// dies with `h`. No other probe's flags enter.
pub proof fn lemma_kill_is_own_probe(kb: &FactBase, h: u32, probes: Seq<Probe>)
    ensures
        forall|i: int, j: int|
            #[trigger] kills_at(kb, h, probes, i, j) <==> (0 <= i < probes.len() && probes[i].judgeable && probes[i].guards_pass
                && 0 <= j < probes[i].conclusions@.len() && exists|f: u32|
                probes[i].conclusions@[j] == Some(f) && dies_with(kb, f, h)),
        (exists|i: int, j: int| kills_at(kb, h, probes, i, j)) <==> exists|i: int, j: int, f: u32|
            #![trigger probes[i].conclusions@[j], dies_with(kb, f, h)]
            0 <= i < probes.len() && probes[i].judgeable && probes[i].guards_pass && 0 <= j < probes[i].conclusions@.len()
                && probes[i].conclusions@[j] == Some(f) && dies_with(kb, f, h),
{
    assert forall|i: int, j: int| #[trigger] kills_at(kb, h, probes, i, j) <==> (0 <= i < probes.len() && probes[i].judgeable
        && probes[i].guards_pass && 0 <= j < probes[i].conclusions@.len() && exists|f: u32|
        probes[i].conclusions@[j] == Some(f) && dies_with(kb, f, h)) by {
        if kills_at(kb, h, probes, i, j) {
            let f = probes[i].conclusions@[j]->Some_0;
            assert(probes[i].conclusions@[j] == Some(f) && dies_with(kb, f, h));
        }
    }
    if exists|i: int, j: int| kills_at(kb, h, probes, i, j) {
        let (i, j) = choose|i: int, j: int| kills_at(kb, h, probes, i, j);
        let f = probes[i].conclusions@[j]->Some_0;
        assert(probes[i].conclusions@[j] == Some(f));
    }
    if exists|i: int, j: int, f: u32|
        #![trigger probes[i].conclusions@[j], dies_with(kb, f, h)]
        0 <= i < probes.len() && probes[i].judgeable && probes[i].guards_pass && 0 <= j < probes[i].conclusions@.len()
            && probes[i].conclusions@[j] == Some(f) && dies_with(kb, f, h) {
        let (i, j, f) = choose|i: int, j: int, f: u32|
            0 <= i < probes.len() && probes[i].judgeable && probes[i].guards_pass && 0 <= j < probes[i].conclusions@.len()
                && probes[i].conclusions@[j] == Some(f) && dies_with(kb, f, h);
        assert(kills_at(kb, h, probes, i, j));
    }
}

/// Whether adding `h` to `kb` yields a one-step contradiction, given the
/// probes the engine ran: some judged probe whose guards pass concludes a
/// fact that, beside `h`, contradicts the KB.
pub fn dies_immediately(kb: &FactBase, h: u32, probes: &[Probe]) -> (r: bool)
    requires
        kb.wf(),
        forall|i: int, j: int|
            0 <= i < probes@.len() && 0 <= j < probes@[i].conclusions@.len() ==> (#[trigger] probes@[i].conclusions@[j] matches Some(
                f,
            ) ==> f < kb.shapes@.len()),
    ensures
        r == exists|i: int, j: int| kills_at(kb, h, probes@, i, j),
        r ==> exists|i: int, j: int, f: u32|
            #![trigger probes@[i].conclusions@[j], dies_with(kb, f, h)]
            0 <= i < probes@.len() && probes@[i].judgeable && probes@[i].guards_pass && 0 <= j < probes@[i].conclusions@.len()
                && probes@[i].conclusions@[j] == Some(f) && dies_with(kb, f, h),
        (exists|i: int, j: int, f: u32|
            #![trigger probes@[i].conclusions@[j], dies_with(kb, f, h)]
            0 <= i < probes@.len() && probes@[i].judgeable && probes@[i].guards_pass && 0 <= j < probes@[i].conclusions@.len()
                && probes@[i].conclusions@[j] == Some(f) && dies_with(kb, f, h)) ==> r,
{
    proof {
        lemma_kill_is_own_probe(kb, h, probes@);
    }
    let mut i: usize = 0;
    while i < probes.len()
        invariant
            kb.wf(),
            forall|i: int, j: int|
                0 <= i < probes@.len() && 0 <= j < probes@[i].conclusions@.len() ==> (#[trigger] probes@[i].conclusions@[j] matches Some(
                    f,
                ) ==> f < kb.shapes@.len()),
            i <= probes@.len(),
            forall|a: int, j: int| 0 <= a < i ==> !kills_at(kb, h, probes@, a, j),
        decreases probes@.len() - i,
    {
        let p = &probes[i];
        if p.judgeable && p.guards_pass {
            let mut j: usize = 0;
            while j < p.conclusions.len()
                invariant
                    kb.wf(),
                    *p == probes@[i as int],
                    p.judgeable && p.guards_pass,
                    i < probes@.len(),
                    forall|i: int, j: int|
                        0 <= i < probes@.len() && 0 <= j < probes@[i].conclusions@.len() ==> (#[trigger] probes@[i].conclusions@[j] matches Some(
                            f,
                        ) ==> f < kb.shapes@.len()),
                    j <= p.conclusions@.len(),
                    forall|q: int| 0 <= q < j ==> !kills_at(kb, h, probes@, i as int, q),
                decreases p.conclusions@.len() - j,
            {
                match p.conclusions[j] {
                    Some(f) => {
                        assert(probes@[i as int].conclusions@[j as int] == Some(f));
                        if is_contradiction(kb, f, h) {
                            assert(kills_at(kb, h, probes@, i as int, j as int));
                            return true;
                        }
                    },
                    None => {},
                }
                j = j + 1;
            }
        }
        i = i + 1;
    }
    false
}

/// The lookahead only under-approximates death: a conclusion it reports
/// as killing `h` makes every world that holds `kb`'s facts, `h` and the
/// conclusion contradictory.
pub proof fn lemma_reported_death_is_real(kb: &FactBase, world: &FactBase, f: u32, h: u32)
    requires
        kb.wf(),
        world.wf(),
        kb.shapes@ == world.shapes@,
        forall|g: int| 0 <= g < kb.held@.len() && #[trigger] kb.held@[g] ==> world.held@[g],
        f < kb.shapes@.len(),
        h < kb.shapes@.len(),
        world.held@[f as int],
        world.held@[h as int],
        dies_with(kb, f, h),
    ensures
        world.detected().len() > 0,
{
    let nn = world.negations@.len();
    match kb.shapes@[f as int] {
        Shape::False => {
            assert(world.falses@.contains(f));
            assert(world.detected().len() >= world.falses@.len());
        },
        Shape::Not(inner) => {
            let g = inner->Some_0;
            assert(world.held@[g as int]);
            assert(world.negations@.contains(f));
            let j = choose|j: int| 0 <= j < nn && world.negations@[j] == f;
            assert(world.pairs(world.negations@[j]));
            lemma_pair_found(world, nn, j);
            assert(world.detected().len() >= world.pairs_upto(nn).len());
        },
        Shape::Positive => {
            let i = choose|i: int| 0 <= i < kb.negations@.len() && kb.inner(#[trigger] kb.negations@[i]) == Some(f);
            let n = kb.negations@[i];
            assert(kb.negations@.contains(n));
            assert(kb.held@[n as int]);
            assert(world.negations@.contains(n));
            let j = choose|j: int| 0 <= j < nn && world.negations@[j] == n;
            assert(world.pairs(world.negations@[j]));
            lemma_pair_found(world, nn, j);
            assert(world.detected().len() >= world.pairs_upto(nn).len());
        },
    }
}

/// The guard's query has a match in the KB under the parent's registers.
pub open spec fn guard_holds(tbl: &FactTable, kb: Seq<u32>, g: &NafGuard, parent: Seq<Option<Arg>>) -> bool {
    walk(tbl, kb, g.sub@, 0, None, (g.project(parent), Seq::empty(), Seq::empty())).len() > 0
}

/// Adding `h` gives the guard's query a match.
pub open spec fn guard_holds_with(tbl: &FactTable, kb: Seq<u32>, g: &NafGuard, parent: Seq<Option<Arg>>, h: u32) -> bool {
    exists|at: int| 0 <= at < g.sub@.len() && holds_at(tbl, kb, g, parent, at, h)
}

/// The guard's query holds a nested absent: adding a fact can make it pass.
pub open spec fn has_nested_absent(g: &NafGuard) -> bool {
    exists|i: int| 0 <= i < g.sub@.len() && (#[trigger] g.sub@[i]) is Absent
}

/// Whether some guard's verdict in `kb` plus `h` cannot be decided cheaply:
/// one holds a nested absent, which is non-monotone in the KB. The negation
/// is a probe's `judgeable`.
pub fn unjudgeable(guards: &Vec<NafGuard>) -> (r: bool)
    ensures
        r == exists|k: int| 0 <= k < guards@.len() && has_nested_absent(#[trigger] &guards@[k]),
{
    let mut k: usize = 0;
    while k < guards.len()
        invariant
            k <= guards@.len(),
            forall|q: int| 0 <= q < k ==> !has_nested_absent(#[trigger] &guards@[q]),
        decreases guards@.len() - k,
    {
        let g = &guards[k];
        let mut i: usize = 0;
        while i < g.sub.len()
            invariant
                k < guards@.len(),
                *g == guards@[k as int],
                forall|q: int| 0 <= q < k ==> !has_nested_absent(#[trigger] &guards@[q]),
                i <= g.sub@.len(),
                forall|q: int| 0 <= q < i ==> !((#[trigger] g.sub@[q]) is Absent),
            decreases g.sub@.len() - i,
        {
            match &g.sub[i] {
                Step::Absent { .. } => {
                    assert(has_nested_absent(&guards@[k as int]));
                    return true;
                },
                _ => {},
            }
            i = i + 1;
        }
        assert(!has_nested_absent(&guards@[k as int]));
        k = k + 1;
    }
    false
}

/// A match's guards, judged in `kb` plus `h`: each must find no match in
/// `kb`, and `h` must not create one. For guards without a nested absent
/// that is exactly "no match in the KB with `h` added". The negation of a
/// probe's `guards_pass` when false.
pub fn guards_pass_with(
    m: &mut Matcher,
    tbl: &FactTable,
    kb: &Vec<u32>,
    guards: &Vec<NafGuard>,
    regs: &Vec<Option<Arg>>,
    h: u32,
) -> (r: bool)
    requires
        tbl.wf(),
        held_ok(tbl, kb@),
        h < tbl.rows@.len(),
        forall|k: int| 0 <= k < guards@.len() ==> (#[trigger] guards@[k]).wf(regs@.len()),
    ensures
        r == forall|k: int| 0 <= k < guards@.len() ==> !guard_holds(tbl, kb@, #[trigger] &guards@[k], regs@)
            && !guard_holds_with(tbl, kb@, &guards@[k], regs@, h),
{
    let mut k: usize = 0;
    while k < guards.len()
        invariant
            tbl.wf(),
            held_ok(tbl, kb@),
            h < tbl.rows@.len(),
            forall|q: int| 0 <= q < guards@.len() ==> (#[trigger] guards@[q]).wf(regs@.len()),
            k <= guards@.len(),
            forall|q: int| 0 <= q < k ==> !guard_holds(tbl, kb@, #[trigger] &guards@[q], regs@)
                && !guard_holds_with(tbl, kb@, &guards@[q], regs@, h),
        decreases guards@.len() - k,
    {
        let g = &guards[k];
        if m.holds(tbl, kb, g, regs) {
            assert(guard_holds(tbl, kb@, &guards@[k as int], regs@));
            return false;
        }
        if m.holds_seeded(tbl, kb, g, regs, h) {
            assert(guard_holds_with(tbl, kb@, &guards@[k as int], regs@, h));
            return false;
        }
        k = k + 1;
    }
    true
}

} // verus!
