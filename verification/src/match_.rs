//! The register matcher: a plan's premises joined against the KB, in
//! nested-loop order.
//!
//! Variables live in a register file; binding one writes its register and
//! pushes it onto a trail, and every step undoes its own bindings by
//! unwinding the trail to the mark it started from. The order of the
//! matches, of each match's bindings (the trail) and of its premises is what
//! the firing order and the provenance are made of, so all three are stated
//! exactly: the matches are `walk`, the nested-loop enumeration over the
//! KB's facts in the order the KB holds them.
use vstd::prelude::*;

use crate::facts::{same_arg, Arg, FactTable};
use crate::mirror::kb_ok;
use crate::predicates::Pred;

verus! {

/// A compiled argument position.
#[derive(Debug)]
pub enum Slot {
    /// A variable: bind on first encounter, compare afterwards.
    Reg(u16),
    /// A name or number literal, or a parameter the activator bound.
    Const(Arg),
    /// A sub-pattern matched against a fact-valued argument.
    Nested { rel: u32, slots: Vec<Slot> },
    /// A form the unifier compares by identity with a value: it never
    /// matches.
    Opaque,
}

/// A guard argument, resolved against the register file at run time.
#[derive(Clone, Copy, PartialEq, Eq, Debug)]
pub enum GuardArg {
    /// A variable: its bound value, or "unbound", which is equal only to
    /// another unbound.
    Reg(u16),
    /// A name or a number.
    Const(Arg),
    /// A raw form, by its structural key: equal only to a raw form with the
    /// same key.
    Node(u32),
}

/// One step of a disjunct's positive program.
#[derive(Debug)]
pub enum Step {
    /// A relation premise: a scan, or a join on shared variables.
    Rel { rel: u32, slots: Vec<Slot> },
    /// A built-in predicate on the current bindings.
    Guard { pred: Pred, a: GuardArg, b: GuardArg },
    /// A nested `(absent …)`: the step passes when its query has no match
    /// under the current bindings, whose own bindings do not escape.
    Absent { sub: Vec<Step> },
}

/// The register file, the trail and the premise stack of a run.
pub struct Matcher {
    pub regs: Vec<Option<Arg>>,
    pub trail: Vec<u16>,
    pub prems: Vec<u32>,
}

/// One match: the disjunct that made it, the registers, the bind order and
/// the premises in step order.
pub struct Found {
    pub disjunct: usize,
    pub regs: Vec<Option<Arg>>,
    pub trail: Vec<u16>,
    pub premises: Vec<u32>,
}

/// Every register a slot names is below `n`.
pub open spec fn slot_ok(s: Slot, n: nat) -> bool
    decreases s,
{
    match s {
        Slot::Reg(r) => r < n,
        Slot::Nested { rel, slots } => forall|k: int| 0 <= k < slots@.len() ==> slot_ok(#[trigger] slots@[k], n),
        _ => true,
    }
}

/// The slots' unification with `args` from position `k` on: the bindings it
/// adds, or `None` when some position fails.
pub open spec fn bind_from(
    tbl: &FactTable,
    slots: Seq<Slot>,
    args: Seq<Arg>,
    k: int,
    regs: Seq<Option<Arg>>,
    trail: Seq<u16>,
) -> Option<(Seq<Option<Arg>>, Seq<u16>)>
    decreases slots, 1int, slots.len() - k,
{
    if k < 0 || k >= slots.len() || k >= args.len() {
        Some((regs, trail))
    } else {
        match bind_slot(tbl, slots[k], args[k], regs, trail) {
            None => None,
            Some((r, t)) => bind_from(tbl, slots, args, k + 1, r, t),
        }
    }
}

/// One slot unified with one argument.
pub open spec fn bind_slot(
    tbl: &FactTable,
    s: Slot,
    a: Arg,
    regs: Seq<Option<Arg>>,
    trail: Seq<u16>,
) -> Option<(Seq<Option<Arg>>, Seq<u16>)>
    decreases s, 0int, 0int,
{
    match s {
        Slot::Reg(r) => match regs[r as int] {
            None => Some((regs.update(r as int, Some(a)), trail.push(r))),
            Some(v) => if v == a {
                Some((regs, trail))
            } else {
                None
            },
        },
        Slot::Const(v) => if v == a {
            Some((regs, trail))
        } else {
            None
        },
        Slot::Nested { rel, slots } => match a {
            Arg::Fact(id) => if id < tbl.rows@.len() && tbl.rows@[id as int].rel == rel
                && slots@.len() == tbl.rows@[id as int].args@.len() {
                bind_from(tbl, slots@, tbl.rows@[id as int].args@, 0, regs, trail)
            } else {
                None
            },
            _ => None,
        },
        Slot::Opaque => None,
    }
}

/// The slots unified with a fact's arguments: they must be as many.
pub open spec fn bind_all(
    tbl: &FactTable,
    slots: Seq<Slot>,
    args: Seq<Arg>,
    regs: Seq<Option<Arg>>,
    trail: Seq<u16>,
) -> Option<(Seq<Option<Arg>>, Seq<u16>)> {
    if slots.len() != args.len() {
        None
    } else {
        bind_from(tbl, slots, args, 0, regs, trail)
    }
}

/// `(regs1, trail1)` only adds bindings to `(regs0, trail0)`: the trail
/// grows by registers that were unbound, and no other register changes.
/// Unwinding the trail back to its old length restores `regs0`.
pub open spec fn extends(regs0: Seq<Option<Arg>>, trail0: Seq<u16>, regs1: Seq<Option<Arg>>, trail1: Seq<u16>) -> bool {
    &&& regs1.len() == regs0.len()
    &&& trail0.len() <= trail1.len()
    &&& trail1.take(trail0.len() as int) == trail0
    &&& forall|k: int| trail0.len() <= k < trail1.len() ==> (#[trigger] trail1[k]) < regs0.len() && regs0[trail1[k] as int] is None
    &&& forall|q: int| 0 <= q < regs0.len() && regs1[q] != regs0[q] ==> exists|k: int|
        trail0.len() <= k < trail1.len() && #[trigger] trail1[k] == q
}

/// An argument held by a fact of the table refers to a fact of it.
pub open spec fn arg_in(tbl: &FactTable, a: Arg) -> bool {
    match a {
        Arg::Fact(g) => g < tbl.rows@.len(),
        _ => true,
    }
}

proof fn lemma_extends_refl(r: Seq<Option<Arg>>, t: Seq<u16>)
    ensures
        extends(r, t, r, t),
{
    assert(t.take(t.len() as int) =~= t);
}

proof fn lemma_extends_trans(
    r0: Seq<Option<Arg>>,
    t0: Seq<u16>,
    r1: Seq<Option<Arg>>,
    t1: Seq<u16>,
    r2: Seq<Option<Arg>>,
    t2: Seq<u16>,
)
    requires
        extends(r0, t0, r1, t1),
        extends(r1, t1, r2, t2),
    ensures
        extends(r0, t0, r2, t2),
{
    assert(t2.take(t0.len() as int) =~= t0) by {
        assert forall|k: int| 0 <= k < t0.len() implies t2[k] == t0[k] by {
            assert(t2.take(t1.len() as int)[k] == t1[k]);
            assert(t1.take(t0.len() as int)[k] == t0[k]);
        }
    }
    assert forall|k: int| t0.len() <= k < t2.len() implies (#[trigger] t2[k]) < r0.len() && r0[t2[k] as int] is None by {
        if k < t1.len() {
            assert(t2.take(t1.len() as int)[k] == t1[k]);
        } else {
            let q = t2[k] as int;
            if r1[q] != r0[q] {
                let k1 = choose|k1: int| t0.len() <= k1 < t1.len() && #[trigger] t1[k1] == q;
            }
        }
    }
    assert forall|q: int| 0 <= q < r0.len() && r2[q] != r0[q] implies exists|k: int|
        t0.len() <= k < t2.len() && #[trigger] t2[k] == q by {
        if r1[q] != r0[q] {
            let k1 = choose|k1: int| t0.len() <= k1 < t1.len() && #[trigger] t1[k1] == q;
            assert(t2.take(t1.len() as int)[k1] == t1[k1]);
            assert(t2[k1] == q);
        } else {
            let k2 = choose|k2: int| t1.len() <= k2 < t2.len() && #[trigger] t2[k2] == q;
        }
    }
}

impl Matcher {
    /// Unify one slot with one argument, binding as it goes. On failure the
    /// bindings made so far stay, for the caller to unwind.
    fn unify_slot(&mut self, tbl: &FactTable, s: &Slot, a: Arg) -> (ok: bool)
        requires
            tbl.wf(),
            slot_ok(*s, old(self).regs@.len()),
            arg_in(tbl, a),
        ensures
            ok == bind_slot(tbl, *s, a, old(self).regs@, old(self).trail@) is Some,
            ok ==> (final(self).regs@, final(self).trail@) == bind_slot(tbl, *s, a, old(self).regs@, old(self).trail@).unwrap(),
            extends(old(self).regs@, old(self).trail@, final(self).regs@, final(self).trail@),
            final(self).prems@ == old(self).prems@,
        decreases *s, 0int,
    {
        proof {
            lemma_extends_refl(self.regs@, self.trail@);
        }
        match s {
            Slot::Reg(r) => {
                let r = *r;
                match self.regs[r as usize] {
                    None => {
                        let ghost r0 = self.regs@;
                        let ghost t0 = self.trail@;
                        self.regs.set(r as usize, Some(a));
                        self.trail.push(r);
                        proof {
                            assert(self.trail@.take(t0.len() as int) =~= t0);
                            assert forall|q: int| 0 <= q < r0.len() && self.regs@[q] != r0[q] implies exists|k: int|
                                t0.len() <= k < self.trail@.len() && #[trigger] self.trail@[k] == q by {
                                assert(self.trail@[t0.len() as int] == r);
                            }
                        }
                        true
                    },
                    Some(v) => same_arg(v, a),
                }
            },
            Slot::Const(v) => same_arg(*v, a),
            Slot::Nested { rel, slots } => match a {
                Arg::Fact(id) => {
                    let row = &tbl.rows[id as usize];
                    if row.rel == *rel && slots.len() == row.args.len() {
                        proof {
                            assert forall|k: int| 0 <= k < row.args@.len() implies arg_in(tbl, #[trigger] row.args@[k]) by {
                                assert(tbl.row_ok(id as int));
                                assert(tbl.arg_ok(row.args@[k], id as int));
                            }
                        }
                        self.unify_from(tbl, slots, &row.args, 0)
                    } else {
                        false
                    }
                },
                _ => false,
            },
            Slot::Opaque => false,
        }
    }

    /// Unify `slots[k..]` with `args[k..]`.
    fn unify_from(&mut self, tbl: &FactTable, slots: &Vec<Slot>, args: &Vec<Arg>, k: usize) -> (ok: bool)
        requires
            tbl.wf(),
            k <= slots@.len(),
            slots@.len() == args@.len(),
            forall|q: int| 0 <= q < slots@.len() ==> slot_ok(#[trigger] slots@[q], old(self).regs@.len()),
            forall|q: int| 0 <= q < args@.len() ==> arg_in(tbl, #[trigger] args@[q]),
        ensures
            ok == bind_from(tbl, slots@, args@, k as int, old(self).regs@, old(self).trail@) is Some,
            ok ==> (final(self).regs@, final(self).trail@) == bind_from(tbl, slots@, args@, k as int, old(self).regs@, old(self).trail@).unwrap(),
            extends(old(self).regs@, old(self).trail@, final(self).regs@, final(self).trail@),
            final(self).prems@ == old(self).prems@,
        decreases slots@, 1int, slots@.len() - k,
    {
        let ghost r0 = self.regs@;
        let ghost t0 = self.trail@;
        proof {
            lemma_extends_refl(r0, t0);
        }
        if k >= slots.len() {
            return true;
        }
        let ok = self.unify_slot(tbl, &slots[k], args[k]);
        if !ok {
            return false;
        }
        let ghost r1 = self.regs@;
        let ghost t1 = self.trail@;
        let rest = self.unify_from(tbl, slots, args, k + 1);
        proof {
            lemma_extends_trans(r0, t0, r1, t1, self.regs@, self.trail@);
        }
        rest
    }
}

/// Every register a step names is below `n`.
pub open spec fn step_ok(s: Step, n: nat) -> bool
    decreases s,
{
    match s {
        Step::Rel { rel, slots } => forall|k: int| 0 <= k < slots@.len() ==> slot_ok(#[trigger] slots@[k], n),
        Step::Guard { pred, a, b } => guard_arg_ok(a, n) && guard_arg_ok(b, n),
        Step::Absent { sub } => forall|k: int| 0 <= k < sub@.len() ==> step_ok(#[trigger] sub@[k], n),
    }
}

pub open spec fn guard_arg_ok(g: GuardArg, n: nat) -> bool {
    match g {
        GuardArg::Reg(r) => r < n,
        _ => true,
    }
}

pub open spec fn steps_ok(steps: Seq<Step>, n: nat) -> bool {
    forall|k: int| 0 <= k < steps.len() ==> step_ok(#[trigger] steps[k], n)
}

/// What a guard argument resolves to: a variable's binding, or a
/// literal's value; a raw form resolves to no value.
pub open spec fn guard_value(regs: Seq<Option<Arg>>, g: GuardArg) -> Option<Arg> {
    match g {
        GuardArg::Reg(r) => regs[r as int],
        GuardArg::Const(v) => Some(v),
        GuardArg::Node(_) => None,
    }
}

/// Two guard arguments are equal: two raw forms by structure, a raw form
/// never to a value, and two values — an unbound variable included — by
/// value.
pub open spec fn resolved_eq(regs: Seq<Option<Arg>>, a: GuardArg, b: GuardArg) -> bool {
    match (a, b) {
        (GuardArg::Node(x), GuardArg::Node(y)) => x == y,
        (GuardArg::Node(_), _) => false,
        (_, GuardArg::Node(_)) => false,
        _ => guard_value(regs, a) == guard_value(regs, b),
    }
}

pub open spec fn guard_passes(pred: Pred, regs: Seq<Option<Arg>>, a: GuardArg, b: GuardArg) -> bool {
    match pred {
        Pred::Eq => resolved_eq(regs, a, b),
        Pred::Neq => !resolved_eq(regs, a, b),
    }
}

/// The seed names step `i`.
pub open spec fn seed_here(seed: Option<(int, u32)>, i: int) -> bool {
    match seed {
        Some((at, _)) => at == i,
        None => false,
    }
}

pub open spec fn seed_fact(seed: Option<(int, u32)>) -> u32 {
    match seed {
        Some((_, f)) => f,
        None => 0,
    }
}

/// The matches of `steps[i..]` under the registers, trail and premises
/// `e`, in nested-loop order. A relation step tries the KB's facts in the
/// order the KB holds them; `seed`, when it names step `i`, is that step's
/// fact, already unified.
pub open spec fn walk(
    tbl: &FactTable,
    kb: Seq<u32>,
    steps: Seq<Step>,
    i: int,
    seed: Option<(int, u32)>,
    e: (Seq<Option<Arg>>, Seq<u16>, Seq<u32>),
) -> Seq<(Seq<Option<Arg>>, Seq<u16>, Seq<u32>)>
    decreases steps, steps.len() - i, kb.len() + 1,
{
    if i < 0 || i >= steps.len() {
        seq![e]
    } else if seed_here(seed, i) {
        walk(tbl, kb, steps, i + 1, seed, (e.0, e.1, e.2.push(seed_fact(seed))))
    } else {
        match steps[i] {
            Step::Rel { rel, slots } => candidates(tbl, kb, steps, i, seed, rel, slots@, 0, e),
            Step::Guard { pred, a, b } => if guard_passes(pred, e.0, a, b) {
                walk(tbl, kb, steps, i + 1, seed, e)
            } else {
                Seq::empty()
            },
            Step::Absent { sub } => if walk(tbl, kb, sub@, 0, None, e).len() == 0 {
                walk(tbl, kb, steps, i + 1, seed, e)
            } else {
                Seq::empty()
            },
        }
    }
}

/// The matches a relation step at `i` finds from the KB's `j`-th fact on.
pub open spec fn candidates(
    tbl: &FactTable,
    kb: Seq<u32>,
    steps: Seq<Step>,
    i: int,
    seed: Option<(int, u32)>,
    rel: u32,
    slots: Seq<Slot>,
    j: int,
    e: (Seq<Option<Arg>>, Seq<u16>, Seq<u32>),
) -> Seq<(Seq<Option<Arg>>, Seq<u16>, Seq<u32>)>
    decreases steps, steps.len() - i, kb.len() - j,
{
    if j < 0 || j >= kb.len() || i < 0 || i >= steps.len() {
        Seq::empty()
    } else {
        let f = kb[j];
        let here = if f < tbl.rows@.len() && tbl.rows@[f as int].rel == rel {
            match bind_all(tbl, slots, tbl.rows@[f as int].args@, e.0, e.1) {
                Some(b) => walk(tbl, kb, steps, i + 1, seed, (b.0, b.1, e.2.push(f))),
                None => Seq::empty(),
            }
        } else {
            Seq::empty()
        };
        here + candidates(tbl, kb, steps, i, seed, rel, slots, j + 1, e)
    }
}

/// The found matches as the disjunct that made each and its registers,
/// trail and premises.
pub open spec fn tagged(out: Seq<Found>) -> Seq<(int, (Seq<Option<Arg>>, Seq<u16>, Seq<u32>))> {
    out.map_values(|f: Found| (f.disjunct as int, (f.regs@, f.trail@, f.premises@)))
}

pub open spec fn tag(d: int, s: Seq<(Seq<Option<Arg>>, Seq<u16>, Seq<u32>)>) -> Seq<(int, (Seq<Option<Arg>>, Seq<u16>, Seq<u32>))> {
    s.map_values(|e: (Seq<Option<Arg>>, Seq<u16>, Seq<u32>)| (d, e))
}

/// A copy of `v`.
pub(crate) fn copy_vec<T: Copy>(v: &Vec<T>) -> (r: Vec<T>)
    ensures
        r@ == v@,
{
    let mut r: Vec<T> = Vec::new();
    let mut i: usize = 0;
    while i < v.len()
        invariant
            i <= v@.len(),
            r@ == v@.take(i as int),
        decreases v@.len() - i,
    {
        r.push(v[i]);
        i = i + 1;
        assert(r@ =~= v@.take(i as int));
    }
    assert(v@.take(v@.len() as int) =~= v@);
    r
}

/// The registers after unwinding `trail` down to `mark`: every register
/// bound past the mark is unbound again.
pub open spec fn unwound(regs: Seq<Option<Arg>>, trail: Seq<u16>, mark: int) -> Seq<Option<Arg>> {
    Seq::new(
        regs.len(),
        |q: int|
            if exists|k: int| mark <= k < trail.len() && #[trigger] trail[k] == q {
                None
            } else {
                regs[q]
            },
    )
}

/// Unwinding to the mark a run of bindings started from restores the
/// registers it started with.
proof fn lemma_unwind_restores(r0: Seq<Option<Arg>>, t0: Seq<u16>, r1: Seq<Option<Arg>>, t1: Seq<u16>)
    requires
        extends(r0, t0, r1, t1),
    ensures
        unwound(r1, t1, t0.len() as int) == r0,
{
    assert forall|q: int| 0 <= q < r0.len() implies #[trigger] unwound(r1, t1, t0.len() as int)[q] == r0[q] by {
        if exists|k: int| t0.len() <= k < t1.len() && #[trigger] t1[k] == q {
            let k = choose|k: int| t0.len() <= k < t1.len() && #[trigger] t1[k] == q;
            assert(r0[t1[k] as int] is None);
        }
    }
    assert(unwound(r1, t1, t0.len() as int) =~= r0);
}

impl Matcher {
    /// Pop the trail down to `mark`, unbinding each register popped.
    fn unwind(&mut self, mark: usize)
        requires
            mark <= old(self).trail@.len(),
            forall|k: int| mark <= k < old(self).trail@.len() ==> (#[trigger] old(self).trail@[k]) < old(self).regs@.len(),
        ensures
            final(self).trail@ == old(self).trail@.take(mark as int),
            final(self).regs@ == unwound(old(self).regs@, old(self).trail@, mark as int),
            final(self).prems@ == old(self).prems@,
    {
        let ghost r0 = self.regs@;
        let ghost t0 = self.trail@;
        while self.trail.len() > mark
            invariant
                mark <= self.trail@.len() <= t0.len(),
                self.trail@ == t0.take(self.trail@.len() as int),
                self.prems@ == old(self).prems@,
                forall|k: int| mark <= k < t0.len() ==> (#[trigger] t0[k]) < r0.len(),
                self.regs@.len() == r0.len(),
                forall|q: int| 0 <= q < r0.len() ==> #[trigger] self.regs@[q] == if exists|k: int|
                    self.trail@.len() <= k < t0.len() && #[trigger] t0[k] == q {
                    None
                } else {
                    r0[q]
                },
            decreases self.trail@.len(),
        {
            let ghost n = self.trail@.len();
            let r = self.trail.pop().unwrap();
            assert(r == t0[n - 1]);
            self.regs.set(r as usize, None);
            assert(self.trail@ =~= t0.take(n - 1));
            assert forall|q: int| 0 <= q < r0.len() implies #[trigger] self.regs@[q] == if exists|k: int|
                self.trail@.len() <= k < t0.len() && #[trigger] t0[k] == q {
                None
            } else {
                r0[q]
            } by {
                if q != r as int {
                    if exists|k: int| n <= k < t0.len() && #[trigger] t0[k] == q {
                        let k = choose|k: int| n <= k < t0.len() && #[trigger] t0[k] == q;
                        assert(self.trail@.len() <= k);
                    }
                    if exists|k: int| self.trail@.len() <= k < t0.len() && #[trigger] t0[k] == q {
                        let k = choose|k: int| self.trail@.len() <= k < t0.len() && #[trigger] t0[k] == q;
                        assert(k != n - 1);
                    }
                } else {
                    assert(t0[n - 1] == q);
                }
            }
        }
        assert(self.regs@ =~= unwound(r0, t0, mark as int));
    }
}

/// Every fact the KB holds is a row of the table.
pub open spec fn held_ok(tbl: &FactTable, kb: Seq<u32>) -> bool {
    forall|k: int| 0 <= k < kb.len() ==> (#[trigger] kb[k]) < tbl.rows@.len()
}

pub open spec fn seed_view(seed: Option<(usize, u32)>) -> Option<(int, u32)> {
    match seed {
        Some((at, f)) => Some((at as int, f)),
        None => None,
    }
}

proof fn lemma_tag_add(
    d: int,
    a: Seq<(Seq<Option<Arg>>, Seq<u16>, Seq<u32>)>,
    b: Seq<(Seq<Option<Arg>>, Seq<u16>, Seq<u32>)>,
)
    ensures
        tag(d, a + b) == tag(d, a) + tag(d, b),
{
    assert(tag(d, a + b) =~= tag(d, a) + tag(d, b));
}

impl Matcher {
    /// The registers, the trail and the premises, as one value.
    pub open spec fn env(&self) -> (Seq<Option<Arg>>, Seq<u16>, Seq<u32>) {
        (self.regs@, self.trail@, self.prems@)
    }

    /// Hand the current match to `out`.
    fn emit(&self, d: usize, out: &mut Vec<Found>)
        ensures
            tagged(final(out)@) == tagged(old(out)@) + tag(d as int, seq![self.env()]),
    {
        let f = Found {
            disjunct: d,
            regs: copy_vec(&self.regs),
            trail: copy_vec(&self.trail),
            premises: copy_vec(&self.prems),
        };
        let ghost o = out@;
        out.push(f);
        assert(tagged(out@) =~= tagged(o) + tag(d as int, seq![self.env()]));
    }

    fn guard_value(&self, g: GuardArg) -> (v: Option<Arg>)
        requires
            guard_arg_ok(g, self.regs@.len()),
        ensures
            v == guard_value(self.regs@, g),
    {
        match g {
            GuardArg::Reg(r) => self.regs[r as usize],
            GuardArg::Const(v) => Some(v),
            GuardArg::Node(_) => None,
        }
    }

    /// `eq` / `neq` on the current bindings.
    fn guard_passes(&self, pred: Pred, a: GuardArg, b: GuardArg) -> (r: bool)
        requires
            guard_arg_ok(a, self.regs@.len()),
            guard_arg_ok(b, self.regs@.len()),
        ensures
            r == guard_passes(pred, self.regs@, a, b),
    {
        let equal = match (a, b) {
            (GuardArg::Node(x), GuardArg::Node(y)) => x == y,
            (GuardArg::Node(_), _) => false,
            (_, GuardArg::Node(_)) => false,
            _ => match (self.guard_value(a), self.guard_value(b)) {
                (Some(x), Some(y)) => same_arg(x, y),
                (None, None) => true,
                _ => false,
            },
        };
        match pred {
            Pred::Eq => equal,
            Pred::Neq => !equal,
        }
    }

    /// Every match of `steps[i..]`, appended to `out` tagged with the
    /// disjunct `d`; the registers, trail and premises are as they were.
    fn walk(
        &mut self,
        tbl: &FactTable,
        kb: &Vec<u32>,
        steps: &Vec<Step>,
        i: usize,
        seed: Option<(usize, u32)>,
        d: usize,
        out: &mut Vec<Found>,
    )
        requires
            tbl.wf(),
            held_ok(tbl, kb@),
            steps_ok(steps@, old(self).regs@.len()),
            i <= steps@.len(),
        ensures
            final(self).env() == old(self).env(),
            tagged(final(out)@) == tagged(old(out)@) + tag(
                d as int,
                walk(tbl, kb@, steps@, i as int, seed_view(seed), old(self).env()),
            ),
        decreases steps@, steps@.len() - i, kb@.len() + 1,
    {
        let ghost e0 = self.env();
        if i == steps.len() {
            self.emit(d, out);
            return;
        }
        let here = match seed {
            Some((at, _)) => at == i,
            None => false,
        };
        if here {
            let f = match seed {
                Some((_, f)) => f,
                None => 0,
            };
            self.prems.push(f);
            self.walk(tbl, kb, steps, i + 1, seed, d, out);
            self.prems.pop();
            assert(self.prems@ =~= e0.2);
            return;
        }
        assert(step_ok(steps@[i as int], e0.0.len()));
        let next = i + 1;
        match &steps[i] {
            Step::Rel { rel, slots } => {
                let ghost out0 = tagged(out@);
                let mut j: usize = 0;
                while j < kb.len()
                    invariant
                        tbl.wf(),
                        held_ok(tbl, kb@),
                        steps_ok(steps@, e0.0.len()),
                        i < steps@.len(),
                        next == i + 1,
                        !seed_here(seed_view(seed), i as int),
                        steps@[i as int] == (Step::Rel { rel: *rel, slots: *slots }),
                        forall|k: int| 0 <= k < slots@.len() ==> slot_ok(#[trigger] slots@[k], e0.0.len()),
                        self.env() == e0,
                        j <= kb@.len(),
                        tagged(out@) + tag(d as int, candidates(tbl, kb@, steps@, i as int, seed_view(seed), *rel, slots@, j as int, e0))
                            == out0 + tag(d as int, candidates(tbl, kb@, steps@, i as int, seed_view(seed), *rel, slots@, 0, e0)),
                    decreases kb@.len() - j,
                {
                    let ghost before = tagged(out@);
                    let f = kb[j];
                    let row = &tbl.rows[f as usize];
                    let ghost hit = bind_all(tbl, slots@, row.args@, e0.0, e0.1);
                    if row.rel == *rel && slots.len() == row.args.len() {
                        proof {
                            assert forall|k: int| 0 <= k < row.args@.len() implies arg_in(tbl, #[trigger] row.args@[k]) by {
                                assert(tbl.row_ok(f as int));
                                assert(tbl.arg_ok(row.args@[k], f as int));
                            }
                        }
                        let mark = self.trail.len();
                        let ok = self.unify_from(tbl, slots, &row.args, 0);
                        let ghost r1 = self.regs@;
                        let ghost t1 = self.trail@;
                        if ok {
                            self.prems.push(f);
                            self.walk(tbl, kb, steps, next, seed, d, out);
                            self.prems.pop();
                            assert(self.prems@ =~= e0.2);
                        } else {
                            assert(hit is None);
                        }
                        self.unwind(mark);
                        proof {
                            lemma_unwind_restores(e0.0, e0.1, r1, t1);
                        }
                    } else {
                        assert(hit is None || row.rel != *rel);
                    }
                    proof {
                        let c = candidates(tbl, kb@, steps@, i as int, seed_view(seed), *rel, slots@, j as int, e0);
                        let c1 = candidates(tbl, kb@, steps@, i as int, seed_view(seed), *rel, slots@, j + 1, e0);
                        let h = c.subrange(0, c.len() - c1.len());
                        assert(c == h + c1);
                        lemma_tag_add(d as int, h, c1);
                        assert(tagged(out@) == before + tag(d as int, h));
                    }
                    j = j + 1;
                }
            },
            Step::Guard { pred, a, b } => {
                if self.guard_passes(*pred, *a, *b) {
                    self.walk(tbl, kb, steps, i + 1, seed, d, out);
                } else {
                    assert(tag(d as int, Seq::empty()) =~= Seq::empty());
                    assert(tagged(out@) =~= tagged(out@) + tag(d as int, Seq::empty()));
                }
            },
            Step::Absent { sub } => {
                assert(steps_ok(sub@, e0.0.len()));
                let mut inner: Vec<Found> = Vec::new();
                self.walk(tbl, kb, sub, 0, None, d, &mut inner);
                assert(tagged(inner@) =~= tag(d as int, walk(tbl, kb@, sub@, 0, None, e0)));
                if inner.len() == 0 {
                    self.walk(tbl, kb, steps, i + 1, seed, d, out);
                } else {
                    assert(tag(d as int, Seq::empty()) =~= Seq::empty());
                    assert(tagged(out@) =~= tagged(out@) + tag(d as int, Seq::empty()));
                }
            },
        }
    }
}

/// A compiled `(rule, activator)` pair, as far as the matcher reads it.
pub struct Plan {
    /// The activator binding: register `r` holds `seed[r]` at match start,
    /// and those registers come first in every match's bind order.
    pub seed: Vec<Arg>,
    /// One positive program per `(or …)` branch.
    pub disjuncts: Vec<Vec<Step>>,
    /// The register space's size, seeds included.
    pub n_regs: u16,
}

/// A lifted top-level `(absent …)`: its query, in a register space of its
/// own projected from the parent's.
pub struct NafGuard {
    pub sub: Vec<Step>,
    pub n_regs: u16,
    /// `scope_of[r]` is the parent register the query's register `r` is
    /// projected from, or `None` for a variable local to the query.
    pub scope_of: Vec<Option<u16>>,
}

impl Plan {
    /// Every register named fits the register space.
    pub open spec fn wf(&self) -> bool {
        &&& self.seed@.len() <= self.n_regs
        &&& forall|d: int| 0 <= d < self.disjuncts@.len() ==> steps_ok(#[trigger] self.disjuncts@[d]@, self.n_regs as nat)
    }

    /// The registers and trail a disjunct starts from: the seed bound, in
    /// order, and nothing else.
    pub open spec fn start(&self) -> (Seq<Option<Arg>>, Seq<u16>, Seq<u32>) {
        (
            Seq::new(self.n_regs as nat, |r: int| if r < self.seed@.len() { Some(self.seed@[r]) } else { None }),
            Seq::new(self.seed@.len(), |r: int| r as u16),
            Seq::empty(),
        )
    }
}

impl NafGuard {
    /// Its query fits its register space, and its projection reads
    /// registers of a parent of `parent_len` registers.
    pub open spec fn wf(&self, parent_len: nat) -> bool {
        &&& steps_ok(self.sub@, self.n_regs as nat)
        &&& self.scope_of@.len() <= self.n_regs
        &&& forall|r: int| 0 <= r < self.scope_of@.len() && (#[trigger] self.scope_of@[r]) is Some ==> self.scope_of@[r]->0 < parent_len
    }

    /// The query's registers projected from the parent's, unbound where the
    /// variable is local.
    pub open spec fn project(&self, parent: Seq<Option<Arg>>) -> Seq<Option<Arg>> {
        Seq::new(
            self.n_regs as nat,
            |r: int|
                if r < self.scope_of@.len() && self.scope_of@[r] is Some {
                    parent[self.scope_of@[r]->0 as int]
                } else {
                    None
                },
        )
    }
}

/// Every match of the first `k` disjuncts, in disjunct order.
pub open spec fn run_upto(tbl: &FactTable, kb: Seq<u32>, plan: &Plan, k: int) -> Seq<(int, (Seq<Option<Arg>>, Seq<u16>, Seq<u32>))>
    decreases k,
{
    if k <= 0 || k > plan.disjuncts@.len() {
        Seq::empty()
    } else {
        run_upto(tbl, kb, plan, k - 1) + tag(k - 1, walk(tbl, kb, plan.disjuncts@[k - 1]@, 0, None, plan.start()))
    }
}

/// The matches of disjunct `d` with fact `f` playing its step `at`: none
/// unless that step is a relation premise whose slots `f` unifies with.
pub open spec fn seeded(tbl: &FactTable, kb: Seq<u32>, plan: &Plan, d: int, at: int, f: u32) -> Seq<(Seq<Option<Arg>>, Seq<u16>, Seq<u32>)> {
    let steps = plan.disjuncts@[d]@;
    match steps[at] {
        Step::Rel { rel, slots } => match bind_all(tbl, slots@, tbl.rows@[f as int].args@, plan.start().0, plan.start().1) {
            Some(b) => walk(tbl, kb, steps, 0, Some((at, f)), (b.0, b.1, Seq::empty())),
            None => Seq::empty(),
        },
        _ => Seq::empty(),
    }
}

/// Step `at` of `steps` is a relation premise on `rel`.
pub open spec fn reads_at(steps: Seq<Step>, at: int, rel: u32) -> bool {
    match steps[at] {
        Step::Rel { rel: r, slots } => r == rel,
        _ => false,
    }
}

/// The seeded matches of disjunct `d` at its first `k` steps.
pub open spec fn seeded_steps(tbl: &FactTable, kb: Seq<u32>, plan: &Plan, d: int, k: int, f: u32) -> Seq<(int, (Seq<Option<Arg>>, Seq<u16>, Seq<u32>))>
    decreases k,
{
    if k <= 0 || k > plan.disjuncts@[d]@.len() {
        Seq::empty()
    } else {
        seeded_steps(tbl, kb, plan, d, k - 1, f) + if reads_at(plan.disjuncts@[d]@, k - 1, tbl.rows@[f as int].rel) {
            tag(d, seeded(tbl, kb, plan, d, k - 1, f))
        } else {
            Seq::empty()
        }
    }
}

/// The seeded matches of the first `k` disjuncts.
pub open spec fn seeded_upto(tbl: &FactTable, kb: Seq<u32>, plan: &Plan, k: int, f: u32) -> Seq<(int, (Seq<Option<Arg>>, Seq<u16>, Seq<u32>))>
    decreases k,
{
    if k <= 0 || k > plan.disjuncts@.len() {
        Seq::empty()
    } else {
        seeded_upto(tbl, kb, plan, k - 1, f) + seeded_steps(tbl, kb, plan, k - 1, plan.disjuncts@[k - 1]@.len() as int, f)
    }
}

/// The guard's query, seeded with fact `f` at its step `at`, has a match.
pub open spec fn holds_at(tbl: &FactTable, kb: Seq<u32>, g: &NafGuard, parent: Seq<Option<Arg>>, at: int, f: u32) -> bool {
    &&& reads_at(g.sub@, at, tbl.rows@[f as int].rel)
    &&& match g.sub@[at] {
        Step::Rel { rel, slots } => match bind_all(tbl, slots@, tbl.rows@[f as int].args@, g.project(parent), Seq::empty()) {
            Some(b) => walk(tbl, kb, g.sub@, 0, Some((at, f)), (b.0, b.1, Seq::empty())).len() > 0,
            None => false,
        },
        _ => false,
    }
}

impl Matcher {
    /// A matcher with an empty register file.
    pub fn new() -> (m: Matcher)
        ensures
            m.regs@.len() == 0,
            m.trail@.len() == 0,
            m.prems@.len() == 0,
    {
        Matcher { regs: Vec::new(), trail: Vec::new(), prems: Vec::new() }
    }

    /// `n` unbound registers, an empty trail, no premises.
    fn reset(&mut self, n: u16)
        ensures
            final(self).regs@ == Seq::new(n as nat, |r: int| None::<Arg>),
            final(self).trail@ == Seq::<u16>::empty(),
            final(self).prems@ == Seq::<u32>::empty(),
    {
        self.regs = Vec::new();
        let mut r: u16 = 0;
        while r < n
            invariant
                r <= n,
                self.regs@ == Seq::new(r as nat, |q: int| None::<Arg>),
            decreases n - r,
        {
            self.regs.push(None);
            r = r + 1;
            assert(self.regs@ =~= Seq::new(r as nat, |q: int| None::<Arg>));
        }
        self.trail = Vec::new();
        self.prems = Vec::new();
    }

    /// The plan's starting state: the seed bound and trailed, in order.
    fn start(&mut self, plan: &Plan)
        requires
            plan.wf(),
        ensures
            final(self).env() == plan.start(),
    {
        self.reset(plan.n_regs);
        let mut r: usize = 0;
        while r < plan.seed.len()
            invariant
                plan.wf(),
                r <= plan.seed@.len(),
                self.regs@ == Seq::new(
                    plan.n_regs as nat,
                    |q: int| if q < r { Some(plan.seed@[q]) } else { None },
                ),
                self.trail@ == Seq::new(r as nat, |q: int| q as u16),
                self.prems@ == Seq::<u32>::empty(),
            decreases plan.seed@.len() - r,
        {
            self.regs.set(r, Some(plan.seed[r]));
            self.trail.push(r as u16);
            r = r + 1;
            assert(self.regs@ =~= Seq::new(
                plan.n_regs as nat,
                |q: int| if q < r { Some(plan.seed@[q]) } else { None },
            ));
            assert(self.trail@ =~= Seq::new(r as nat, |q: int| q as u16));
        }
        assert(self.regs@ =~= plan.start().0);
    }

    /// Every match of every disjunct, in disjunct order, each disjunct
    /// starting from the plan's seed.
    pub fn run(&mut self, tbl: &FactTable, kb: &Vec<u32>, plan: &Plan) -> (out: Vec<Found>)
        requires
            tbl.wf(),
            held_ok(tbl, kb@),
            plan.wf(),
        ensures
            tagged(out@) == run_upto(tbl, kb@, plan, plan.disjuncts@.len() as int),
    {
        let mut out: Vec<Found> = Vec::new();
        let mut d: usize = 0;
        while d < plan.disjuncts.len()
            invariant
                tbl.wf(),
                held_ok(tbl, kb@),
                plan.wf(),
                d <= plan.disjuncts@.len(),
                tagged(out@) == run_upto(tbl, kb@, plan, d as int),
            decreases plan.disjuncts@.len() - d,
        {
            self.start(plan);
            assert(steps_ok(plan.disjuncts@[d as int]@, plan.n_regs as nat));
            self.walk(tbl, kb, &plan.disjuncts[d], 0, None, d, &mut out);
            d = d + 1;
        }
        out
    }

    /// Every match of disjunct `d` alone.
    pub fn run_one(&mut self, tbl: &FactTable, kb: &Vec<u32>, plan: &Plan, d: usize) -> (out: Vec<Found>)
        requires
            tbl.wf(),
            held_ok(tbl, kb@),
            plan.wf(),
            d < plan.disjuncts@.len(),
        ensures
            tagged(out@) == tag(d as int, walk(tbl, kb@, plan.disjuncts@[d as int]@, 0, None, plan.start())),
    {
        let mut out: Vec<Found> = Vec::new();
        self.start(plan);
        assert(steps_ok(plan.disjuncts@[d as int]@, plan.n_regs as nat));
        self.walk(tbl, kb, &plan.disjuncts[d], 0, None, d, &mut out);
        assert(tagged(out@) =~= Seq::empty() + tag(d as int, walk(tbl, kb@, plan.disjuncts@[d as int]@, 0, None, plan.start())));
        out
    }

    /// The same matches as [`Matcher::run`]; a caller that reads each
    /// disjunct's guards uses this name.
    pub fn run_guarded(&mut self, tbl: &FactTable, kb: &Vec<u32>, plan: &Plan) -> (out: Vec<Found>)
        requires
            tbl.wf(),
            held_ok(tbl, kb@),
            plan.wf(),
        ensures
            tagged(out@) == run_upto(tbl, kb@, plan, plan.disjuncts@.len() as int),
    {
        self.run(tbl, kb, plan)
    }

    /// Disjunct `d` with fact `f` bound at step `at` first, appended to
    /// `out`.
    fn run_disjunct_at(&mut self, tbl: &FactTable, kb: &Vec<u32>, plan: &Plan, d: usize, at: usize, f: u32, out: &mut Vec<Found>)
        requires
            tbl.wf(),
            held_ok(tbl, kb@),
            plan.wf(),
            d < plan.disjuncts@.len(),
            at < plan.disjuncts@[d as int]@.len(),
            f < tbl.rows@.len(),
        ensures
            tagged(final(out)@) == tagged(old(out)@) + tag(d as int, seeded(tbl, kb@, plan, d as int, at as int, f)),
    {
        let steps = &plan.disjuncts[d];
        self.start(plan);
        assert(steps_ok(steps@, plan.n_regs as nat));
        assert(step_ok(steps@[at as int], plan.n_regs as nat));
        match &steps[at] {
            Step::Rel { rel, slots } => {
                let args = &tbl.rows[f as usize].args;
                proof {
                    assert forall|k: int| 0 <= k < args@.len() implies arg_in(tbl, #[trigger] args@[k]) by {
                        assert(tbl.row_ok(f as int));
                        assert(tbl.arg_ok(args@[k], f as int));
                    }
                }
                if slots.len() == args.len() && self.unify_from(tbl, slots, args, 0) {
                    self.walk(tbl, kb, steps, 0, Some((at, f)), d, out);
                } else {
                    assert(tag(d as int, Seq::empty()) =~= Seq::empty());
                    assert(tagged(out@) =~= tagged(out@) + tag(d as int, Seq::empty()));
                }
            },
            _ => {
                assert(tag(d as int, Seq::empty()) =~= Seq::empty());
                assert(tagged(out@) =~= tagged(out@) + tag(d as int, Seq::empty()));
            },
        }
    }

    /// The semi-naive delta match: every match in which fact `f` plays a
    /// positive premise. Each relation step on `f`'s relation is seeded with
    /// `f` in turn, disjunct by disjunct, and the rest of the disjunct runs.
    pub fn run_seeded(&mut self, tbl: &FactTable, kb: &Vec<u32>, plan: &Plan, f: u32) -> (out: Vec<Found>)
        requires
            tbl.wf(),
            held_ok(tbl, kb@),
            plan.wf(),
            f < tbl.rows@.len(),
        ensures
            tagged(out@) == seeded_upto(tbl, kb@, plan, plan.disjuncts@.len() as int, f),
    {
        let rel = tbl.rows[f as usize].rel;
        let mut out: Vec<Found> = Vec::new();
        let mut d: usize = 0;
        while d < plan.disjuncts.len()
            invariant
                tbl.wf(),
                held_ok(tbl, kb@),
                plan.wf(),
                f < tbl.rows@.len(),
                rel == tbl.rows@[f as int].rel,
                d <= plan.disjuncts@.len(),
                tagged(out@) == seeded_upto(tbl, kb@, plan, d as int, f),
            decreases plan.disjuncts@.len() - d,
        {
            let steps = &plan.disjuncts[d];
            let ghost base = tagged(out@);
            let mut at: usize = 0;
            while at < steps.len()
                invariant
                    tbl.wf(),
                    held_ok(tbl, kb@),
                    plan.wf(),
                    f < tbl.rows@.len(),
                    rel == tbl.rows@[f as int].rel,
                    d < plan.disjuncts@.len(),
                    steps@ == plan.disjuncts@[d as int]@,
                    at <= steps@.len(),
                    tagged(out@) == base + seeded_steps(tbl, kb@, plan, d as int, at as int, f),
                decreases steps@.len() - at,
            {
                let ghost prev = tagged(out@);
                let reads = match &steps[at] {
                    Step::Rel { rel: r, slots } => *r == rel,
                    _ => false,
                };
                if reads {
                    self.run_disjunct_at(tbl, kb, plan, d, at, f, &mut out);
                } else {
                    assert(tagged(out@) =~= prev + Seq::empty());
                }
                at = at + 1;
                assert(tagged(out@) =~= base + seeded_steps(tbl, kb@, plan, d as int, at as int, f));
            }
            d = d + 1;
            assert(tagged(out@) =~= seeded_upto(tbl, kb@, plan, d as int, f));
        }
        out
    }

    /// The same matches as [`Matcher::run_seeded`], under the name a caller
    /// that reads the guards uses.
    pub fn run_seeded_guarded(&mut self, tbl: &FactTable, kb: &Vec<u32>, plan: &Plan, f: u32) -> (out: Vec<Found>)
        requires
            tbl.wf(),
            held_ok(tbl, kb@),
            plan.wf(),
            f < tbl.rows@.len(),
        ensures
            tagged(out@) == seeded_upto(tbl, kb@, plan, plan.disjuncts@.len() as int, f),
    {
        self.run_seeded(tbl, kb, plan, f)
    }

    /// One disjunct seeded at one named step — the lookahead's probe. `f`
    /// need not be held by the KB: the question is what would follow from
    /// adding it.
    pub fn run_seeded_at(&mut self, tbl: &FactTable, kb: &Vec<u32>, plan: &Plan, d: usize, at: usize, f: u32) -> (out: Vec<Found>)
        requires
            tbl.wf(),
            held_ok(tbl, kb@),
            plan.wf(),
            d < plan.disjuncts@.len(),
            at < plan.disjuncts@[d as int]@.len(),
            f < tbl.rows@.len(),
        ensures
            tagged(out@) == tag(d as int, seeded(tbl, kb@, plan, d as int, at as int, f)),
    {
        let mut out: Vec<Found> = Vec::new();
        self.run_disjunct_at(tbl, kb, plan, d, at, f, &mut out);
        assert(tagged(out@) =~= Seq::empty() + tag(d as int, seeded(tbl, kb@, plan, d as int, at as int, f)));
        out
    }

    /// The guard's registers, projected from the parent's.
    fn project(&mut self, g: &NafGuard, parent: &Vec<Option<Arg>>)
        requires
            g.wf(parent@.len()),
        ensures
            final(self).env() == (g.project(parent@), Seq::<u16>::empty(), Seq::<u32>::empty()),
    {
        self.reset(g.n_regs);
        let mut r: usize = 0;
        while r < g.scope_of.len()
            invariant
                g.wf(parent@.len()),
                r <= g.scope_of@.len(),
                self.regs@ == Seq::new(
                    g.n_regs as nat,
                    |q: int| if q < r && g.scope_of@[q] is Some { parent@[g.scope_of@[q]->0 as int] } else { None },
                ),
                self.trail@ == Seq::<u16>::empty(),
                self.prems@ == Seq::<u32>::empty(),
            decreases g.scope_of@.len() - r,
        {
            match g.scope_of[r] {
                Some(p) => {
                    self.regs.set(r, parent[p as usize]);
                },
                None => {},
            }
            r = r + 1;
            assert(self.regs@ =~= Seq::new(
                g.n_regs as nat,
                |q: int| if q < r && g.scope_of@[q] is Some { parent@[g.scope_of@[q]->0 as int] } else { None },
            ));
        }
        assert(self.regs@ =~= g.project(parent@));
    }

    /// The boundary's question: does the guard's query have a match, run in
    /// its own registers projected from the parent's? The projection is not
    /// trailed: a guard produces no provenance.
    pub fn holds(&mut self, tbl: &FactTable, kb: &Vec<u32>, g: &NafGuard, parent: &Vec<Option<Arg>>) -> (r: bool)
        requires
            tbl.wf(),
            held_ok(tbl, kb@),
            g.wf(parent@.len()),
        ensures
            r == (walk(tbl, kb@, g.sub@, 0, None, (g.project(parent@), Seq::empty(), Seq::empty())).len() > 0),
    {
        self.project(g, parent);
        let mut inner: Vec<Found> = Vec::new();
        self.walk(tbl, kb, &g.sub, 0, None, 0, &mut inner);
        assert(tagged(inner@).len() == inner@.len());
        inner.len() > 0
    }

    /// Does fact `f` give the guard's query a match: is there a relation
    /// step on `f`'s relation which, seeded with `f`, lets the rest of the
    /// query match?
    pub fn holds_seeded(&mut self, tbl: &FactTable, kb: &Vec<u32>, g: &NafGuard, parent: &Vec<Option<Arg>>, f: u32) -> (r: bool)
        requires
            tbl.wf(),
            held_ok(tbl, kb@),
            g.wf(parent@.len()),
            f < tbl.rows@.len(),
        ensures
            r == exists|at: int| 0 <= at < g.sub@.len() && holds_at(tbl, kb@, g, parent@, at, f),
    {
        let rel = tbl.rows[f as usize].rel;
        let args = &tbl.rows[f as usize].args;
        proof {
            assert forall|k: int| 0 <= k < args@.len() implies arg_in(tbl, #[trigger] args@[k]) by {
                assert(tbl.row_ok(f as int));
                assert(tbl.arg_ok(args@[k], f as int));
            }
        }
        let mut at: usize = 0;
        while at < g.sub.len()
            invariant
                tbl.wf(),
                held_ok(tbl, kb@),
                g.wf(parent@.len()),
                f < tbl.rows@.len(),
                rel == tbl.rows@[f as int].rel,
                args@ == tbl.rows@[f as int].args@,
                forall|k: int| 0 <= k < args@.len() ==> arg_in(tbl, #[trigger] args@[k]),
                at <= g.sub@.len(),
                forall|q: int| 0 <= q < at ==> !holds_at(tbl, kb@, g, parent@, q, f),
            decreases g.sub@.len() - at,
        {
            assert(step_ok(g.sub@[at as int], g.n_regs as nat));
            match &g.sub[at] {
                Step::Rel { rel: r, slots } => {
                    if *r == rel {
                        self.project(g, parent);
                        if slots.len() == args.len() && self.unify_from(tbl, slots, args, 0) {
                            let mut inner: Vec<Found> = Vec::new();
                            self.walk(tbl, kb, &g.sub, 0, Some((at, f)), 0, &mut inner);
                            assert(tagged(inner@).len() == inner@.len());
                            if inner.len() > 0 {
                                assert(holds_at(tbl, kb@, g, parent@, at as int, f));
                                return true;
                            }
                        }
                    }
                },
                _ => {},
            }
            at = at + 1;
        }
        false
    }
}

/// `m` grows `e`: its bindings only add to `e`'s, its trail starts with
/// `e`'s, and its premises start with `e`'s.
pub open spec fn grows(e: (Seq<Option<Arg>>, Seq<u16>, Seq<u32>), m: (Seq<Option<Arg>>, Seq<u16>, Seq<u32>)) -> bool {
    &&& extends(e.0, e.1, m.0, m.1)
    &&& e.2.len() <= m.2.len()
    &&& m.2.take(e.2.len() as int) == e.2
}

pub(crate) proof fn lemma_bind_slot_extends(tbl: &FactTable, s: Slot, a: Arg, regs: Seq<Option<Arg>>, trail: Seq<u16>)
    requires
        slot_ok(s, regs.len()),
    ensures
        bind_slot(tbl, s, a, regs, trail) matches Some(b) ==> extends(regs, trail, b.0, b.1),
    decreases s, 0int, 0int,
{
    match s {
        Slot::Reg(r) => {
            lemma_extends_refl(regs, trail);
            if regs[r as int] is None {
                let t1 = trail.push(r);
                let r1 = regs.update(r as int, Some(a));
                assert(t1.take(trail.len() as int) =~= trail);
                assert forall|q: int| 0 <= q < regs.len() && r1[q] != regs[q] implies exists|k: int|
                    trail.len() <= k < t1.len() && #[trigger] t1[k] == q by {
                    assert(t1[trail.len() as int] == r);
                }
            }
        },
        Slot::Nested { rel, slots } => {
            lemma_extends_refl(regs, trail);
            if let Arg::Fact(id) = a {
                if id < tbl.rows@.len() {
                    lemma_bind_from_extends(tbl, slots@, tbl.rows@[id as int].args@, 0, regs, trail);
                }
            }
        },
        _ => {
            lemma_extends_refl(regs, trail);
        },
    }
}

pub(crate) proof fn lemma_bind_from_extends(
    tbl: &FactTable,
    slots: Seq<Slot>,
    args: Seq<Arg>,
    k: int,
    regs: Seq<Option<Arg>>,
    trail: Seq<u16>,
)
    requires
        forall|q: int| 0 <= q < slots.len() ==> slot_ok(#[trigger] slots[q], regs.len()),
    ensures
        bind_from(tbl, slots, args, k, regs, trail) matches Some(b) ==> extends(regs, trail, b.0, b.1),
    decreases slots, 1int, slots.len() - k,
{
    lemma_extends_refl(regs, trail);
    if 0 <= k < slots.len() && k < args.len() {
        lemma_bind_slot_extends(tbl, slots[k], args[k], regs, trail);
        if let Some(b) = bind_slot(tbl, slots[k], args[k], regs, trail) {
            lemma_bind_from_extends(tbl, slots, args, k + 1, b.0, b.1);
            if let Some(c) = bind_from(tbl, slots, args, k + 1, b.0, b.1) {
                lemma_extends_trans(regs, trail, b.0, b.1, c.0, c.1);
            }
        }
    }
}

proof fn lemma_grows_trans(
    a: (Seq<Option<Arg>>, Seq<u16>, Seq<u32>),
    b: (Seq<Option<Arg>>, Seq<u16>, Seq<u32>),
    c: (Seq<Option<Arg>>, Seq<u16>, Seq<u32>),
)
    requires
        grows(a, b),
        grows(b, c),
    ensures
        grows(a, c),
{
    lemma_extends_trans(a.0, a.1, b.0, b.1, c.0, c.1);
    assert(c.2.take(a.2.len() as int) =~= a.2) by {
        assert forall|q: int| 0 <= q < a.2.len() implies c.2[q] == a.2[q] by {
            assert(c.2.take(b.2.len() as int)[q] == b.2[q]);
            assert(b.2.take(a.2.len() as int)[q] == a.2[q]);
        }
    }
}

/// Every match grows the state its walk started from: a match only adds
/// bindings, in bind order after the ones already made — the seed's first
/// — and only adds premises after the ones already found.
pub proof fn lemma_matches_grow(
    tbl: &FactTable,
    kb: Seq<u32>,
    steps: Seq<Step>,
    i: int,
    seed: Option<(int, u32)>,
    e: (Seq<Option<Arg>>, Seq<u16>, Seq<u32>),
)
    requires
        steps_ok(steps, e.0.len()),
    ensures
        forall|q: int| 0 <= q < walk(tbl, kb, steps, i, seed, e).len() ==> grows(e, #[trigger] walk(tbl, kb, steps, i, seed, e)[q]),
    decreases steps, steps.len() - i, kb.len() + 1,
{
    let w = walk(tbl, kb, steps, i, seed, e);
    lemma_extends_refl(e.0, e.1);
    assert(e.2.take(e.2.len() as int) =~= e.2);
    if i < 0 || i >= steps.len() {
        assert(w == seq![e]);
        assert(grows(e, e));
    } else if seed_here(seed, i) {
        let e1 = (e.0, e.1, e.2.push(seed_fact(seed)));
        assert(e1.2.take(e.2.len() as int) =~= e.2);
        assert(grows(e, e1));
        assert(w == walk(tbl, kb, steps, i + 1, seed, e1));
        lemma_matches_grow(tbl, kb, steps, i + 1, seed, e1);
        assert forall|q: int| 0 <= q < w.len() implies grows(e, #[trigger] w[q]) by {
            lemma_grows_trans(e, e1, w[q]);
        }
    } else {
        match steps[i] {
            Step::Rel { rel, slots } => {
                assert(step_ok(steps[i], e.0.len()));
                assert(w == candidates(tbl, kb, steps, i, seed, rel, slots@, 0, e));
                lemma_candidates_grow(tbl, kb, steps, i, seed, rel, slots@, 0, e);
            },
            Step::Guard { pred, a, b } => {
                lemma_matches_grow(tbl, kb, steps, i + 1, seed, e);
                if guard_passes(pred, e.0, a, b) {
                    assert(w == walk(tbl, kb, steps, i + 1, seed, e));
                } else {
                    assert(w.len() == 0);
                }
            },
            Step::Absent { sub } => {
                lemma_matches_grow(tbl, kb, steps, i + 1, seed, e);
                if walk(tbl, kb, sub@, 0, None, e).len() == 0 {
                    assert(w == walk(tbl, kb, steps, i + 1, seed, e));
                } else {
                    assert(w.len() == 0);
                }
            },
        }
    }
}

proof fn lemma_candidates_grow(
    tbl: &FactTable,
    kb: Seq<u32>,
    steps: Seq<Step>,
    i: int,
    seed: Option<(int, u32)>,
    rel: u32,
    slots: Seq<Slot>,
    j: int,
    e: (Seq<Option<Arg>>, Seq<u16>, Seq<u32>),
)
    requires
        steps_ok(steps, e.0.len()),
        forall|q: int| 0 <= q < slots.len() ==> slot_ok(#[trigger] slots[q], e.0.len()),
    ensures
        forall|q: int|
            0 <= q < candidates(tbl, kb, steps, i, seed, rel, slots, j, e).len() ==> grows(
                e,
                #[trigger] candidates(tbl, kb, steps, i, seed, rel, slots, j, e)[q],
            ),
    decreases steps, steps.len() - i, kb.len() - j,
{
    if j < 0 || j >= kb.len() || i < 0 || i >= steps.len() {
    } else {
        let f = kb[j];
        let c = candidates(tbl, kb, steps, i, seed, rel, slots, j, e);
        let rest = candidates(tbl, kb, steps, i, seed, rel, slots, j + 1, e);
        lemma_candidates_grow(tbl, kb, steps, i, seed, rel, slots, j + 1, e);
        let here = if f < tbl.rows@.len() && tbl.rows@[f as int].rel == rel {
            match bind_all(tbl, slots, tbl.rows@[f as int].args@, e.0, e.1) {
                Some(b) => walk(tbl, kb, steps, i + 1, seed, (b.0, b.1, e.2.push(f))),
                None => Seq::empty(),
            }
        } else {
            Seq::empty()
        };
        assert(c == here + rest);
        if f < tbl.rows@.len() && tbl.rows@[f as int].rel == rel {
            let args = tbl.rows@[f as int].args@;
            if slots.len() == args.len() {
                lemma_bind_from_extends(tbl, slots, args, 0, e.0, e.1);
            }
            if let Some(b) = bind_all(tbl, slots, args, e.0, e.1) {
                let e1 = (b.0, b.1, e.2.push(f));
                assert(e1.2.take(e.2.len() as int) =~= e.2);
                lemma_matches_grow(tbl, kb, steps, i + 1, seed, e1);
                assert forall|q: int| 0 <= q < here.len() implies grows(e, #[trigger] here[q]) by {
                    lemma_grows_trans(e, e1, here[q]);
                }
            }
        }
        assert forall|q: int| 0 <= q < c.len() implies grows(e, #[trigger] c[q]) by {
            if q < here.len() {
                assert(c[q] == here[q]);
            } else {
                assert(c[q] == rest[q - here.len()]);
            }
        }
    }
}

} // verus!
