//! Firing: an `:assert` template instantiated against a match's registers,
//! the conclusions interned and written, and the interned activator
//! identity.
use vstd::prelude::*;

use crate::facts::{intern_fact, probe, unique_rows, Arg, FactTable};
use crate::match_::{Found, Slot};
use crate::mirror::holds_in;
use crate::text::owned;

verus! {

/// An interned `plan.activator_args`.
#[derive(Clone, Copy, PartialEq, Eq, Hash, Debug)]
pub struct ActivatorId(pub u32);

/// What stops a firing that should never have been attempted.
#[derive(Clone, PartialEq, Eq, Debug)]
pub enum FireError {
    /// A template variable the match left unbound: its register.
    UnboundVar(u16),
    /// A template that is not a fact pattern, or holds a form with no value.
    NotAFact(String),
    /// The fact table is full.
    Overflow,
}

/// Why a template cannot be built, as the left-to-right resolution first
/// meets it.
pub enum BuildFault {
    NotNested,
    Opaque,
    Unbound(u16),
}

/// The template `s` denotes fact `id` under `regs`: a fact pattern whose
/// relation and arguments the table's row `id` holds.
pub open spec fn denotes(tbl: &FactTable, id: u32, s: Slot, regs: Seq<Option<Arg>>) -> bool
    decreases s, 0int,
{
    match s {
        Slot::Nested { rel, slots } => {
            &&& id < tbl.rows@.len()
            &&& tbl.rows@[id as int].rel == rel
            &&& tbl.rows@[id as int].args@.len() == slots@.len()
            &&& forall|k: int| 0 <= k < slots@.len() ==> arg_denotes(tbl, tbl.rows@[id as int].args@[k], #[trigger] slots@[k], regs)
        },
        _ => false,
    }
}

/// Argument `a` is what slot `s` resolves to: a literal itself, a
/// variable's binding, or the fact a nested pattern builds.
pub open spec fn arg_denotes(tbl: &FactTable, a: Arg, s: Slot, regs: Seq<Option<Arg>>) -> bool
    decreases s, 1int,
{
    match s {
        Slot::Const(v) => a == v,
        Slot::Reg(r) => regs[r as int] == Some(a),
        Slot::Nested { rel, slots } => match a {
            Arg::Fact(g) => denotes(tbl, g, s, regs),
            _ => false,
        },
        Slot::Opaque => false,
    }
}

/// The first fault resolving `s` meets, left to right.
pub open spec fn resolve_fault(s: Slot, regs: Seq<Option<Arg>>) -> Option<BuildFault>
    decreases s, 1int, 0int,
{
    match s {
        Slot::Const(_) => None,
        Slot::Reg(r) => if regs[r as int] is None {
            Some(BuildFault::Unbound(r))
        } else {
            None
        },
        Slot::Nested { rel, slots } => fault_from(slots@, 0, regs),
        Slot::Opaque => Some(BuildFault::Opaque),
    }
}

pub open spec fn fault_from(slots: Seq<Slot>, k: int, regs: Seq<Option<Arg>>) -> Option<BuildFault>
    decreases slots, 0int, slots.len() - k,
{
    if k < 0 || k >= slots.len() {
        None
    } else {
        match resolve_fault(slots[k], regs) {
            Some(f) => Some(f),
            None => fault_from(slots, k + 1, regs),
        }
    }
}

/// The first fault building the template `s` as a fact meets.
pub open spec fn build_fault(s: Slot, regs: Seq<Option<Arg>>) -> Option<BuildFault> {
    match s {
        Slot::Nested { rel, slots } => fault_from(slots@, 0, regs),
        _ => Some(BuildFault::NotNested),
    }
}

/// The name Python's `type(template).__name__` gives a slot.
pub open spec fn slot_type_name(s: Slot) -> Seq<char> {
    match s {
        Slot::Reg(_) => "Var"@,
        Slot::Const(_) => "Atom"@,
        Slot::Nested { .. } => "NestedPattern"@,
        Slot::Opaque => "SForm"@,
    }
}

pub open spec fn not_nested_text(s: Slot) -> Seq<char> {
    "expected NestedPattern at :assert top-level, got "@ + slot_type_name(s)
}

pub open spec fn no_value_text() -> Seq<char> {
    "an unrecognised `:assert` slot has no value to store"@
}

/// What building `s` under `regs` returns, the table's filling up aside.
pub open spec fn built(tbl: &FactTable, s: Slot, regs: Seq<Option<Arg>>, r: Result<u32, FireError>) -> bool {
    match build_fault(s, regs) {
        None => r matches Ok(id) && denotes(tbl, id, s, regs),
        Some(BuildFault::NotNested) => r matches Err(FireError::NotAFact(m)) && m@ == not_nested_text(s),
        Some(BuildFault::Opaque) => r matches Err(FireError::NotAFact(m)) && m@ == no_value_text(),
        Some(BuildFault::Unbound(x)) => r == Err::<u32, FireError>(FireError::UnboundVar(x)),
    }
}

/// Every register the template names is below `n`, every literal is a
/// value of the table and every relation a name of it.
pub open spec fn template_ok(tbl: &FactTable, s: Slot, n: nat) -> bool
    decreases s,
{
    match s {
        Slot::Reg(r) => r < n,
        Slot::Const(v) => tbl.arg_ok(v, tbl.rows@.len() as int),
        Slot::Nested { rel, slots } => rel < tbl.names@.len() && forall|k: int|
            0 <= k < slots@.len() ==> template_ok(tbl, #[trigger] slots@[k], n),
        Slot::Opaque => true,
    }
}

/// Every bound register holds a value of the table.
pub open spec fn regs_ok(tbl: &FactTable, regs: Seq<Option<Arg>>) -> bool {
    forall|r: int| 0 <= r < regs.len() && (#[trigger] regs[r]) is Some ==> tbl.arg_ok(regs[r]->0, tbl.rows@.len() as int)
}

/// `t1` extends `t0`: the same names, and `t0`'s rows first.
pub open spec fn grown(t0: &FactTable, t1: &FactTable) -> bool {
    &&& t1.names@ == t0.names@
    &&& t0.rows@.len() <= t1.rows@.len()
    &&& t1.rows@.take(t0.rows@.len() as int) == t0.rows@
}

proof fn lemma_grown_row(t0: &FactTable, t1: &FactTable, i: int)
    requires
        grown(t0, t1),
        0 <= i < t0.rows@.len(),
    ensures
        t1.rows@[i] == t0.rows@[i],
{
    assert(t1.rows@.take(t0.rows@.len() as int)[i] == t1.rows@[i]);
}

pub(crate) proof fn lemma_grown_trans(t0: &FactTable, t1: &FactTable, t2: &FactTable)
    requires
        grown(t0, t1),
        grown(t1, t2),
    ensures
        grown(t0, t2),
{
    assert(t2.rows@.take(t0.rows@.len() as int) =~= t0.rows@) by {
        assert forall|i: int| 0 <= i < t0.rows@.len() implies t2.rows@[i] == t0.rows@[i] by {
            lemma_grown_row(t1, t2, i);
            lemma_grown_row(t0, t1, i);
        }
    }
}

pub(crate) proof fn lemma_denotes_grown(t0: &FactTable, t1: &FactTable, id: u32, s: Slot, regs: Seq<Option<Arg>>)
    requires
        grown(t0, t1),
        denotes(t0, id, s, regs),
    ensures
        denotes(t1, id, s, regs),
    decreases s, 0int,
{
    if let Slot::Nested { rel, slots } = s {
        lemma_grown_row(t0, t1, id as int);
        assert forall|k: int| 0 <= k < slots@.len() implies arg_denotes(t1, t1.rows@[id as int].args@[k], #[trigger] slots@[k], regs) by {
            lemma_arg_denotes_grown(t0, t1, t0.rows@[id as int].args@[k], slots@[k], regs);
        }
    }
}

proof fn lemma_arg_denotes_grown(t0: &FactTable, t1: &FactTable, a: Arg, s: Slot, regs: Seq<Option<Arg>>)
    requires
        grown(t0, t1),
        arg_denotes(t0, a, s, regs),
    ensures
        arg_denotes(t1, a, s, regs),
    decreases s, 1int,
{
    if let Slot::Nested { rel, slots } = s {
        if let Arg::Fact(g) = a {
            lemma_denotes_grown(t0, t1, g, s, regs);
        }
    }
}

pub(crate) proof fn lemma_template_grown(t0: &FactTable, t1: &FactTable, s: Slot, n: nat)
    requires
        grown(t0, t1),
        template_ok(t0, s, n),
    ensures
        template_ok(t1, s, n),
    decreases s,
{
    if let Slot::Nested { rel, slots } = s {
        assert forall|k: int| 0 <= k < slots@.len() implies template_ok(t1, #[trigger] slots@[k], n) by {
            lemma_template_grown(t0, t1, slots@[k], n);
        }
    }
}

/// What resolving `slots[k..]` left to right gives: every value, or the
/// first fault.
pub open spec fn resolved_from(
    tbl: &FactTable,
    slots: Seq<Slot>,
    k: int,
    regs: Seq<Option<Arg>>,
    args: Seq<Arg>,
    r: Result<(), FireError>,
) -> bool {
    match fault_from(slots, k, regs) {
        None => r is Ok && args.len() == slots.len() && forall|q: int|
            0 <= q < slots.len() ==> arg_denotes(tbl, #[trigger] args[q], slots[q], regs) && tbl.arg_ok(args[q], tbl.rows@.len() as int),
        Some(BuildFault::NotNested) => false,
        Some(BuildFault::Opaque) => r matches Err(FireError::NotAFact(m)) && m@ == no_value_text(),
        Some(BuildFault::Unbound(x)) => r == Err::<(), FireError>(FireError::UnboundVar(x)),
    }
}

/// What resolving `s` under `regs` returns, the table's filling up aside.
pub open spec fn resolved(tbl: &FactTable, s: Slot, regs: Seq<Option<Arg>>, r: Result<Arg, FireError>) -> bool {
    match resolve_fault(s, regs) {
        None => r is Ok && arg_denotes(tbl, r->Ok_0, s, regs),
        Some(BuildFault::NotNested) => false,
        Some(BuildFault::Opaque) => r is Err && r->Err_0 is NotAFact && r->Err_0->NotAFact_0@ == no_value_text(),
        Some(BuildFault::Unbound(x)) => r == Err::<Arg, FireError>(FireError::UnboundVar(x)),
    }
}

/// Resolution never meets a misplaced top level: that fault is only the
/// template's own.
proof fn lemma_fault_nested(s: Slot, regs: Seq<Option<Arg>>)
    ensures
        !(resolve_fault(s, regs) matches Some(BuildFault::NotNested)),
    decreases s, 1int, 0int,
{
    if let Slot::Nested { rel, slots } = s {
        lemma_fault_from_nested(slots@, 0, regs);
    }
}

proof fn lemma_fault_from_nested(slots: Seq<Slot>, k: int, regs: Seq<Option<Arg>>)
    ensures
        !(fault_from(slots, k, regs) matches Some(BuildFault::NotNested)),
    decreases slots, 0int, slots.len() - k,
{
    if 0 <= k < slots.len() {
        lemma_fault_nested(slots[k], regs);
        lemma_fault_from_nested(slots, k + 1, regs);
    }
}

proof fn lemma_resolved_literal(s: Slot, regs: Seq<Option<Arg>>, r: Result<Arg, FireError>)
    requires
        s is Const,
        r == Ok::<Arg, FireError>(s->Const_0),
    ensures
        forall|t: &FactTable| #[trigger] resolved(t, s, regs, r),
{
}

/// One slot's value under `regs`, building the fact a nested pattern
/// denotes.
fn resolve(tbl: &mut FactTable, regs: &Vec<Option<Arg>>, s: &Slot) -> (r: Result<Arg, FireError>)
    requires
        old(tbl).wf(),
        unique_rows(old(tbl)),
        template_ok(old(tbl), *s, regs@.len()),
        regs_ok(old(tbl), regs@),
    ensures
        final(tbl).wf(),
        unique_rows(final(tbl)),
        grown(old(tbl), final(tbl)),
        final(tbl).rows@.len() <= u32::MAX || final(tbl).rows@.len() == old(tbl).rows@.len(),
        final(tbl).rows@.len() == old(tbl).rows@.len() ==> *final(tbl) == *old(tbl),
        r matches Ok(a) ==> final(tbl).arg_ok(a, final(tbl).rows@.len() as int),
        r is Err && r->Err_0 is Overflow ==> final(tbl).rows@.len() >= u32::MAX,
        !(r is Err && r->Err_0 is Overflow) ==> resolved(final(tbl), *s, regs@, r),
        old(tbl).rows@.len() < u32::MAX ==> forall|a: Arg|
            #[trigger] arg_denotes(old(tbl), a, *s, regs@) ==> r == Ok::<Arg, FireError>(a) && *final(tbl) == *old(tbl),
    decreases *s, 2int, 0int,
{
    proof {
        assert(tbl.rows@.take(tbl.rows@.len() as int) =~= tbl.rows@);
    }
    match s {
        Slot::Const(v) => {
            assert(resolve_fault(*s, regs@) is None);
            let out: Result<Arg, FireError> = Ok(*v);
            proof {
                lemma_resolved_literal(*s, regs@, out);
            }
            out
        },
        Slot::Reg(r) => {
            let out: Result<Arg, FireError> = match regs[*r as usize] {
                Some(v) => Ok(v),
                None => Err(FireError::UnboundVar(*r)),
            };
            assert(resolved(tbl, *s, regs@, out));
            out
        },
        Slot::Nested { .. } => {
            let b = build_fact(tbl, regs, s);
            proof {
                assert(build_fault(*s, regs@) == resolve_fault(*s, regs@));
                lemma_fault_nested(*s, regs@);
            }
            proof {
                if old(tbl).rows@.len() < u32::MAX {
                    assert forall|a: Arg| #[trigger] arg_denotes(old(tbl), a, *s, regs@) implies b == Ok::<u32, FireError>(a->Fact_0) && a is Fact && *tbl == *old(tbl) by {
                        if let Arg::Fact(g) = a {
                            assert(denotes(old(tbl), g, *s, regs@));
                        }
                    }
                }
            }
            match b {
                Ok(id) => {
                    assert(arg_denotes(tbl, Arg::Fact(id), *s, regs@) == denotes(tbl, id, *s, regs@));
                    let out: Result<Arg, FireError> = Ok(Arg::Fact(id));
                    assert(resolved(tbl, *s, regs@, out));
                    out
                },
                Err(e) => {
                    let out: Result<Arg, FireError> = Err(e);
                    assert(!(out is Err && out->Err_0 is Overflow) ==> resolved(tbl, *s, regs@, out));
                    out
                },
            }
        },
        Slot::Opaque => {
            let m = owned("an unrecognised `:assert` slot has no value to store");
            proof {
                reveal_strlit("an unrecognised `:assert` slot has no value to store");
                assert(m@ == no_value_text());
            }
            let out: Result<Arg, FireError> = Err(FireError::NotAFact(m));
            assert(resolved(tbl, *s, regs@, out));
            out
        },
    }
}

/// `vals[k..]` are what `slots[k..]` resolve to under `regs`.
pub open spec fn denoted_from(tbl: &FactTable, slots: Seq<Slot>, k: int, regs: Seq<Option<Arg>>, vals: Seq<Arg>) -> bool {
    &&& vals.len() == slots.len()
    &&& forall|q: int| k <= q < slots.len() ==> #[trigger] arg_denotes(tbl, vals[q], slots[q], regs)
}

/// Resolve `slots[k..]` onto `args`, stopping at the first fault.
fn resolve_from(tbl: &mut FactTable, regs: &Vec<Option<Arg>>, slots: &Vec<Slot>, k: usize, args: &mut Vec<Arg>) -> (r: Result<(), FireError>)
    requires
        old(tbl).wf(),
        unique_rows(old(tbl)),
        forall|q: int| 0 <= q < slots@.len() ==> template_ok(old(tbl), #[trigger] slots@[q], regs@.len()),
        regs_ok(old(tbl), regs@),
        k <= slots@.len(),
        old(args)@.len() == k,
        forall|q: int| 0 <= q < k ==> arg_denotes(old(tbl), #[trigger] old(args)@[q], slots@[q], regs@)
            && old(tbl).arg_ok(old(args)@[q], old(tbl).rows@.len() as int),
    ensures
        final(tbl).wf(),
        unique_rows(final(tbl)),
        grown(old(tbl), final(tbl)),
        final(tbl).rows@.len() <= u32::MAX || final(tbl).rows@.len() == old(tbl).rows@.len(),
        final(tbl).rows@.len() == old(tbl).rows@.len() ==> *final(tbl) == *old(tbl),
        r is Err && r->Err_0 is Overflow ==> final(tbl).rows@.len() >= u32::MAX,
        !(r is Err && r->Err_0 is Overflow) ==> resolved_from(final(tbl), slots@, k as int, regs@, final(args)@, r),
        old(tbl).rows@.len() < u32::MAX ==> forall|vals: Seq<Arg>|
            #[trigger] denoted_from(old(tbl), slots@, k as int, regs@, vals)
                ==> (r is Ok && final(args)@ == old(args)@ + vals.subrange(k as int, slots@.len() as int) && *final(tbl) == *old(tbl)),
    decreases slots@, 1int, slots@.len() - k,
{
    proof {
        assert(tbl.rows@.take(tbl.rows@.len() as int) =~= tbl.rows@);
    }
    if k >= slots.len() {
        proof {
            assert forall|vals: Seq<Arg>| vals.len() == slots@.len() implies args@ == args@ + vals.subrange(k as int, slots@.len() as int) by {
                assert(vals.subrange(k as int, slots@.len() as int) =~= Seq::<Arg>::empty());
                assert(args@ + Seq::<Arg>::empty() =~= args@);
            }
        }
        return Ok(());
    }
    let ghost t1 = *tbl;
    let ghost a0 = args@;
    let v = resolve(tbl, regs, &slots[k]);
    proof {
        assert forall|q: int| 0 <= q < slots@.len() implies template_ok(tbl, #[trigger] slots@[q], regs@.len()) by {
            lemma_template_grown(&t1, tbl, slots@[q], regs@.len());
        }
        assert forall|q: int| 0 <= q < k implies arg_denotes(tbl, #[trigger] a0[q], slots@[q], regs@)
            && tbl.arg_ok(a0[q], tbl.rows@.len() as int) by {
            lemma_arg_denotes_grown(&t1, tbl, a0[q], slots@[q], regs@);
        }
    }
    match v {
        Ok(a) => {
            args.push(a);
            proof {
                assert forall|q: int| 0 <= q < k + 1 implies arg_denotes(tbl, #[trigger] args@[q], slots@[q], regs@)
                    && tbl.arg_ok(args@[q], tbl.rows@.len() as int) by {
                    if q < k {
                        assert(args@[q] == a0[q]);
                    }
                }
            }
            let ghost t2 = *tbl;
            let ghost a1 = args@;
            let rest = resolve_from(tbl, regs, slots, k + 1, args);
            proof {
                lemma_grown_trans(&t1, &t2, tbl);
                assert(t1 == *old(tbl));
                assert(a0 == old(args)@);
                if t1.rows@.len() < u32::MAX {
                    assert forall|vals: Seq<Arg>|
                        #[trigger] denoted_from(old(tbl), slots@, k as int, regs@, vals)
                        implies (rest is Ok && args@ == old(args)@ + vals.subrange(k as int, slots@.len() as int) && *tbl == *old(tbl)) by {
                        assert(arg_denotes(&t1, vals[k as int], slots@[k as int], regs@));
                        assert(a == vals[k as int] && t2 == t1);
                        assert(a1 == a0.push(vals[k as int]));
                        assert(denoted_from(&t2, slots@, k + 1, regs@, vals));
                        assert(a0 + vals.subrange(k as int, slots@.len() as int) =~= a1 + vals.subrange(k + 1, slots@.len() as int));
                    }
                }
            }
            rest
        },
        Err(e) => {
            proof {
                if t1.rows@.len() < u32::MAX {
                    assert forall|vals: Seq<Arg>|
                        #[trigger] denoted_from(&t1, slots@, k as int, regs@, vals)
                        implies false by {
                        assert(arg_denotes(&t1, vals[k as int], slots@[k as int], regs@));
                    }
                }
            }
            Err(e)
        },
    }
}

/// Build one conclusion from its template, interning it, without writing
/// it to the KB.
pub fn build_fact(tbl: &mut FactTable, regs: &Vec<Option<Arg>>, template: &Slot) -> (r: Result<u32, FireError>)
    requires
        old(tbl).wf(),
        unique_rows(old(tbl)),
        template_ok(old(tbl), *template, regs@.len()),
        regs_ok(old(tbl), regs@),
    ensures
        final(tbl).wf(),
        unique_rows(final(tbl)),
        grown(old(tbl), final(tbl)),
        final(tbl).rows@.len() <= u32::MAX || final(tbl).rows@.len() == old(tbl).rows@.len(),
        final(tbl).rows@.len() == old(tbl).rows@.len() ==> *final(tbl) == *old(tbl),
        r matches Ok(id) ==> id < final(tbl).rows@.len(),
        r is Err && r->Err_0 is Overflow ==> final(tbl).rows@.len() >= u32::MAX,
        !(r is Err && r->Err_0 is Overflow) ==> built(final(tbl), *template, regs@, r),
        old(tbl).rows@.len() < u32::MAX ==> forall|id: u32|
            #[trigger] denotes(old(tbl), id, *template, regs@) ==> r == Ok::<u32, FireError>(id) && *final(tbl) == *old(tbl),
    decreases *template, 1int, 0int,
{
    proof {
        assert(tbl.rows@.take(tbl.rows@.len() as int) =~= tbl.rows@);
    }
    match template {
        Slot::Nested { rel, slots } => {
            let ghost t0 = *tbl;
            let mut args: Vec<Arg> = Vec::new();
            let res = resolve_from(tbl, regs, slots, 0, &mut args);
            proof {
                assert(t0 == *old(tbl));
                if t0.rows@.len() < u32::MAX {
                    assert forall|id: u32| #[trigger] denotes(old(tbl), id, *template, regs@) implies (res is Ok && args@
                        == t0.rows@[id as int].args@ && *tbl == t0) by {
                        let vals = t0.rows@[id as int].args@;
                        assert(denoted_from(&t0, slots@, 0, regs@, vals));
                        assert(Seq::<Arg>::empty() + vals.subrange(0, slots@.len() as int) =~= vals);
                    }
                }
            }
            match res {
                Err(e) => {
                    return Err(e);
                },
                Ok(()) => {},
            }
            if tbl.rows.len() >= 0xffff_ffff {
                return Err(FireError::Overflow);
            }
            let ghost t2 = *tbl;
            let ghost a = args@;
            let id = intern_fact(tbl, *rel, args);
            proof {
                if t0.rows@.len() < u32::MAX {
                    assert forall|d: u32| #[trigger] denotes(old(tbl), d, *template, regs@) implies id == d && *tbl == t0 by {
                        assert(t2 == t0);
                        assert(a == t0.rows@[d as int].args@);
                        crate::facts::lemma_probe_found(t0.rows@, *rel, a, 0);
                        assert(t0.rows@[d as int].rel == *rel);
                        match probe(&t0, *rel, a) {
                            Some(x) => {
                                if x != d {
                                    if x < d {
                                        assert(!(t0.rows@[x as int].rel == t0.rows@[d as int].rel && t0.rows@[x as int].args@ == t0.rows@[d as int].args@));
                                    } else {
                                        assert(!(t0.rows@[d as int].rel == t0.rows@[x as int].rel && t0.rows@[d as int].args@ == t0.rows@[x as int].args@));
                                    }
                                }
                            },
                            None => {
                                assert(!(t0.rows@[d as int].rel == *rel && t0.rows@[d as int].args@ == a));
                            },
                        }
                    }
                }
                assert(grown(&t2, tbl));
                lemma_grown_trans(&t0, &t2, tbl);
                assert forall|q: int| 0 <= q < slots@.len() implies arg_denotes(tbl, tbl.rows@[id as int].args@[q], #[trigger] slots@[q], regs@) by {
                    assert(tbl.rows@[id as int].args@[q] == a[q]);
                    lemma_arg_denotes_grown(&t2, tbl, a[q], slots@[q], regs@);
                }
            }
            Ok(id)
        },
        Slot::Reg(_) => {
            let m = owned("expected NestedPattern at :assert top-level, got Var");
            proof {
                reveal_strlit("expected NestedPattern at :assert top-level, got Var");
                reveal_strlit("expected NestedPattern at :assert top-level, got ");
                reveal_strlit("Var");
                assert(m@ =~= not_nested_text(*template));
            }
            Err(FireError::NotAFact(m))
        },
        Slot::Const(_) => {
            let m = owned("expected NestedPattern at :assert top-level, got Atom");
            proof {
                reveal_strlit("expected NestedPattern at :assert top-level, got Atom");
                reveal_strlit("expected NestedPattern at :assert top-level, got ");
                reveal_strlit("Atom");
                assert(m@ =~= not_nested_text(*template));
            }
            Err(FireError::NotAFact(m))
        },
        Slot::Opaque => {
            let m = owned("expected NestedPattern at :assert top-level, got SForm");
            proof {
                reveal_strlit("expected NestedPattern at :assert top-level, got SForm");
                reveal_strlit("expected NestedPattern at :assert top-level, got ");
                reveal_strlit("SForm");
                assert(m@ =~= not_nested_text(*template));
            }
            Err(FireError::NotAFact(m))
        },
    }
}

/// One rule application: the conclusions, in `:assert` order, and the
/// premises the match consumed.
pub struct Firing {
    pub derived: Vec<u32>,
    pub premises: Vec<u32>,
}

/// `kb1` is `kb0` with `ids` written: each one not yet held appended, once,
/// in order.
pub open spec fn written(kb0: Seq<u32>, ids: Seq<u32>, kb1: Seq<u32>) -> bool {
    &&& kb0.len() <= kb1.len()
    &&& kb1.take(kb0.len() as int) == kb0
    &&& forall|i: int| 0 <= i < ids.len() ==> kb1.contains(#[trigger] ids[i])
    &&& forall|k: int| kb0.len() <= k < kb1.len() ==> ids.contains(#[trigger] kb1[k])
}

/// `ids` witness that the KB holds, for every template, a fact it denotes
/// under `regs`.
pub open spec fn held_witness(tbl: &FactTable, kb: Seq<u32>, asserts: Seq<Slot>, regs: Seq<Option<Arg>>, ids: Seq<u32>) -> bool {
    &&& ids.len() == asserts.len()
    &&& forall|i: int| 0 <= i < asserts.len() ==> kb.contains(#[trigger] ids[i]) && denotes(tbl, ids[i], asserts[i], regs)
}

/// Build every conclusion of a match and write each to the KB, a known one
/// once only. `None` for a plan with no `:assert`. A template that cannot be
/// built stops the firing with its error, the conclusions before it
/// written.
pub fn fire(tbl: &mut FactTable, kb: &mut Vec<u32>, asserts: &Vec<Slot>, found: &Found) -> (r: Result<Option<Firing>, FireError>)
    requires
        old(tbl).wf(),
        unique_rows(old(tbl)),
        crate::mirror::kb_ok(old(tbl), old(kb)@),
        forall|i: int| 0 <= i < asserts@.len() ==> template_ok(old(tbl), #[trigger] asserts@[i], found.regs@.len()),
        regs_ok(old(tbl), found.regs@),
    ensures
        final(tbl).wf(),
        unique_rows(final(tbl)),
        grown(old(tbl), final(tbl)),
        final(tbl).rows@.len() <= u32::MAX || final(tbl).rows@.len() == old(tbl).rows@.len(),
        final(tbl).rows@.len() == old(tbl).rows@.len() ==> *final(tbl) == *old(tbl),
        crate::mirror::kb_ok(final(tbl), final(kb)@),
        old(kb)@.len() <= final(kb)@.len(),
        final(kb)@.take(old(kb)@.len() as int) == old(kb)@,
        asserts@.len() == 0 ==> (r matches Ok(None) && final(kb)@ == old(kb)@),
        r matches Ok(None) ==> asserts@.len() == 0,
        r is Err ==> final(kb)@ == old(kb)@,
        asserts@.len() <= 1 ==> final(kb)@.len() <= old(kb)@.len() + 1,
        old(tbl).rows@.len() < u32::MAX ==> forall|ids: Seq<u32>|
            #[trigger] held_witness(old(tbl), old(kb)@, asserts@, found.regs@, ids) ==> (r is Ok && *final(tbl) == *old(tbl)
                && final(kb)@ == old(kb)@),
        r matches Ok(Some(f)) ==> {
            &&& asserts@.len() > 0
            &&& f.premises@ == found.premises@
            &&& f.derived@.len() == asserts@.len()
            &&& forall|i: int| 0 <= i < asserts@.len() ==> denotes(final(tbl), #[trigger] f.derived@[i], asserts@[i], found.regs@)
            &&& written(old(kb)@, f.derived@, final(kb)@)
            &&& forall|i: int| 0 <= i < asserts@.len() ==> build_fault(#[trigger] asserts@[i], found.regs@) is None
        },
        r is Err && r->Err_0 is Overflow ==> final(tbl).rows@.len() >= u32::MAX,
        r is Err && !(r->Err_0 is Overflow) ==> exists|i: int|
            0 <= i < asserts@.len() && (forall|j: int| 0 <= j < i ==> build_fault(#[trigger] asserts@[j], found.regs@) is None)
                && built(final(tbl), #[trigger] asserts@[i], found.regs@, Err(r->Err_0)),
{
    proof {
        assert(tbl.rows@.take(tbl.rows@.len() as int) =~= tbl.rows@);
        assert(kb@.take(kb@.len() as int) =~= kb@);
    }
    if asserts.len() == 0 {
        return Ok(None);
    }
    let ghost t0 = *tbl;
    let ghost kb0 = kb@;
    let mut derived: Vec<u32> = Vec::new();
    let mut i: usize = 0;
    // Build every conclusion first; a template that cannot be built stops
    // the firing before anything is written.
    while i < asserts.len()
        invariant
            t0 == *old(tbl),
            kb0 == old(kb)@,
            kb@ == kb0,
            tbl.rows@.len() <= u32::MAX || tbl.rows@.len() == t0.rows@.len(),
            tbl.rows@.len() == t0.rows@.len() ==> *tbl == t0,
            tbl.wf(),
            unique_rows(tbl),
            grown(&t0, tbl),
            crate::mirror::kb_ok(tbl, kb@),
            forall|q: int| 0 <= q < asserts@.len() ==> template_ok(tbl, #[trigger] asserts@[q], found.regs@.len()),
            regs_ok(tbl, found.regs@),
            i <= asserts@.len(),
            derived@.len() == i,
            forall|q: int| 0 <= q < i ==> build_fault(#[trigger] asserts@[q], found.regs@) is None,
            forall|q: int| 0 <= q < i ==> denotes(tbl, #[trigger] derived@[q], asserts@[q], found.regs@),
            t0.rows@.len() < u32::MAX ==> forall|ids: Seq<u32>|
                #[trigger] held_witness(&t0, kb0, asserts@, found.regs@, ids) ==> (*tbl == t0 && derived@ == ids.take(i as int)),
        decreases asserts@.len() - i,
    {
        let ghost t1 = *tbl;
        let b = build_fact(tbl, &found.regs, &asserts[i]);
        proof {
            assert forall|q: int| 0 <= q < asserts@.len() implies template_ok(tbl, #[trigger] asserts@[q], found.regs@.len()) by {
                lemma_template_grown(&t1, tbl, asserts@[q], found.regs@.len());
            }
            assert forall|q: int| 0 <= q < i implies denotes(tbl, #[trigger] derived@[q], asserts@[q], found.regs@) by {
                lemma_denotes_grown(&t1, tbl, derived@[q], asserts@[q], found.regs@);
            }
            lemma_grown_trans(&t0, &t1, tbl);
            assert forall|q: int| 0 <= q < kb@.len() implies (#[trigger] kb@[q]) < tbl.rows@.len() by {
                assert(kb0[q] < t1.rows@.len());
            }
            if t0.rows@.len() < u32::MAX {
                assert forall|ids: Seq<u32>| #[trigger] held_witness(&t0, kb0, asserts@, found.regs@, ids) implies (b
                    == Ok::<u32, FireError>(ids[i as int]) && *tbl == t0) by {
                    assert(kb0.contains(ids[i as int]) && denotes(&t0, ids[i as int], asserts@[i as int], found.regs@));
                    assert(t1 == t0);
                }
            }
        }
        match b {
            Err(e) => {
                proof {
                    if !(e is Overflow) {
                        assert(built(tbl, asserts@[i as int], found.regs@, Err(e)));
                    }
                }
                return Err(e);
            },
            Ok(id) => {
                let ghost d0 = derived@;
                derived.push(id);
                proof {
                    assert forall|q: int| 0 <= q < i + 1 implies denotes(tbl, #[trigger] derived@[q], asserts@[q], found.regs@) by {
                        if q < i {
                            assert(derived@[q] == d0[q]);
                        }
                    }
                    if t0.rows@.len() < u32::MAX {
                        assert forall|ids: Seq<u32>| #[trigger] held_witness(&t0, kb0, asserts@, found.regs@, ids) implies (*tbl
                            == t0 && derived@ == ids.take(i + 1)) by {
                            assert(derived@ =~= ids.take(i + 1));
                        }
                    }
                }
            },
        }
        i = i + 1;
    }
    // Then write each, a known one once only.
    let mut w: usize = 0;
    while w < derived.len()
        invariant
            t0 == *old(tbl),
            kb0 == old(kb)@,
            tbl.wf(),
            crate::mirror::kb_ok(tbl, kb@),
            derived@.len() == asserts@.len(),
            forall|q: int| 0 <= q < derived@.len() ==> (#[trigger] derived@[q]) < tbl.rows@.len(),
            w <= derived@.len(),
            written(kb0, derived@.take(w as int), kb@),
            t0.rows@.len() < u32::MAX ==> forall|ids: Seq<u32>|
                #[trigger] held_witness(&t0, kb0, asserts@, found.regs@, ids) ==> (*tbl == t0 && derived@ == ids && kb@ == kb0),
        decreases derived@.len() - w,
    {
        let id = derived[w];
        let ghost kb2 = kb@;
        let ghost d0 = derived@.take(w as int);
        if !holds_in(kb, id) {
            kb.push(id);
            proof {
                assert(kb@.take(kb2.len() as int) =~= kb2);
                assert(kb@.take(kb0.len() as int) =~= kb0) by {
                    assert(kb2.take(kb0.len() as int) == kb0);
                    assert forall|q: int| 0 <= q < kb0.len() implies kb@[q] == kb0[q] by {
                        assert(kb2.take(kb0.len() as int)[q] == kb2[q]);
                    }
                }
                assert(kb@[kb2.len() as int] == id);
                assert(kb@.no_duplicates()) by {
                    assert forall|x: int, y: int| 0 <= x < y < kb@.len() implies kb@[x] != kb@[y] by {
                        if y == kb2.len() {
                            assert(kb2.contains(kb2[x]));
                        }
                    }
                }
                if t0.rows@.len() < u32::MAX {
                    assert forall|ids: Seq<u32>| #[trigger] held_witness(&t0, kb0, asserts@, found.regs@, ids) implies false by {
                        assert(derived@[w as int] == ids[w as int]);
                        assert(kb0.contains(ids[w as int]));
                    }
                }
            }
        }
        proof {
            let d1 = derived@.take(w + 1);
            assert(d1 =~= d0.push(id));
            assert forall|q: int| 0 <= q < d1.len() implies kb@.contains(#[trigger] d1[q]) by {
                if q < w {
                    assert(d1[q] == d0[q]);
                    assert(kb2.contains(d0[q]));
                    let x = choose|x: int| 0 <= x < kb2.len() && kb2[x] == d0[q];
                    assert(kb@[x] == kb2[x]);
                } else if kb2.contains(id) {
                    let x = choose|x: int| 0 <= x < kb2.len() && kb2[x] == id;
                    assert(kb@[x] == kb2[x]);
                } else {
                    assert(kb@[kb2.len() as int] == id);
                }
            }
            assert forall|k: int| kb0.len() <= k < kb@.len() implies d1.contains(#[trigger] kb@[k]) by {
                if k < kb2.len() {
                    assert(kb@[k] == kb2[k]);
                    let x = choose|x: int| 0 <= x < d0.len() && d0[x] == kb2[k];
                    assert(d1[x] == d0[x]);
                } else {
                    assert(d1[w as int] == id);
                }
            }
        }
        w = w + 1;
    }
    proof {
        assert(derived@.take(derived@.len() as int) =~= derived@);
        if asserts@.len() <= 1 && kb@.len() > kb0.len() + 1 {
            let k1 = kb0.len() as int;
            let k2 = k1 + 1;
            assert(derived@.contains(kb@[k1]) && derived@.contains(kb@[k2]));
            assert(kb@[k1] == derived@[0] && kb@[k2] == derived@[0]);
        }
    }
    let premises = crate::match_::copy_vec(&found.premises);
    Ok(Some(Firing { derived, premises }))
}

} // verus!
