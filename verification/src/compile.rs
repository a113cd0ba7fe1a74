//! Compilation errors: a `:match` clause that cannot be lowered faithfully.
use vstd::prelude::*;

use crate::facts::Arg;
use crate::match_::{Slot, Step};
use crate::plan::MAX_REGS;
use crate::text::owned;

verus! {

/// A `:match` clause the compiler cannot lower to a faithful plan. The
/// message is what a rule author sees.
#[derive(Clone, PartialEq, Eq, Debug)]
pub struct CompileError(pub String);

impl CompileError {
    /// The message, as `Display` renders it.
    pub fn message(&self) -> (s: &str)
        ensures
            s@ == self.0@,
    {
        self.0.as_str()
    }
}

/// A node of a rule's `:match`, as the compiler reads it. Names — of
/// variables, atoms and relation heads — are symbols of the fact table.
pub enum Term {
    /// `?name`.
    Var(u32),
    /// A bare name.
    Atom(u32),
    /// A number literal.
    Int(i64),
    /// `(head args…)`.
    Form { head: Box<Term>, args: Vec<Term> },
    /// `:key value`.
    KwPair,
    /// A string, a wildcard, a range: compared by identity, never matched.
    Other,
}

/// The value the activator bound `name` to, the first binding winning.
pub open spec fn seed_of(seed: Seq<(u32, Arg)>, name: u32) -> Option<Arg>
    decreases seed.len(),
{
    if seed.len() == 0 {
        None
    } else if seed[0].0 == name {
        Some(seed[0].1)
    } else {
        seed_of(seed.drop_first(), name)
    }
}

/// The register `name` already has: its position in the space.
pub open spec fn reg_of(space: Seq<u32>, name: u32) -> Option<int>
    decreases space.len(),
{
    if space.len() == 0 {
        None
    } else if space.last() == name {
        Some(space.len() - 1)
    } else {
        reg_of(space.drop_last(), name)
    }
}

/// The relation a head names: an atom, or a variable the activator bound to
/// a name.
pub open spec fn head_rel(seed: Seq<(u32, Arg)>, head: Term) -> Option<u32> {
    match head {
        Term::Atom(s) => Some(s),
        Term::Var(n) => match seed_of(seed, n) {
            Some(Arg::Sym(s)) => Some(s),
            _ => None,
        },
        _ => None,
    }
}

/// The register space after lowering `ts` in order: each variable met first,
/// and not bound by the activator, takes the next register; `None` when
/// that would pass `MAX_REGS`.
pub open spec fn space_after(space: Seq<u32>, seed: Seq<(u32, Arg)>, ts: Seq<Term>) -> Option<Seq<u32>>
    decreases ts,
{
    if ts.len() == 0 {
        Some(space)
    } else {
        match space_after(space, seed, ts.drop_last()) {
            None => None,
            Some(sp) => match ts.last() {
                Term::Var(n) => if seed_of(seed, n) is None && reg_of(sp, n) is None {
                    if sp.len() >= MAX_REGS {
                        None
                    } else {
                        Some(sp.push(n))
                    }
                } else {
                    Some(sp)
                },
                Term::Form { head, args } => if head_rel(seed, *head) is Some {
                    proof {
                        assert(decreases_to!(ts => ts[ts.len() - 1]));
                    }
                    space_after(sp, seed, args@)
                } else {
                    Some(sp)
                },
                _ => Some(sp),
            },
        }
    }
}

/// `s` is node `t` lowered in register space `sp`: a bound variable its
/// value, a free one its register, a name or number itself, a form with a
/// usable head a nested pattern of its arguments lowered in turn, anything
/// else opaque.
pub open spec fn slot_ok(sp: Seq<u32>, seed: Seq<(u32, Arg)>, t: Term, s: Slot) -> bool
    decreases t,
{
    match t {
        Term::Var(n) => match seed_of(seed, n) {
            Some(v) => s == Slot::Const(v),
            None => match reg_of(sp, n) {
                Some(r) => s == Slot::Reg(r as u16),
                None => s == Slot::Reg(sp.len() as u16),
            },
        },
        Term::Atom(a) => s == Slot::Const(Arg::Sym(a)),
        Term::Int(i) => s == Slot::Const(Arg::Int(i)),
        Term::Form { head, args } => match head_rel(seed, *head) {
            None => s is Opaque,
            Some(rel) => match s {
                Slot::Nested { rel: r, slots } => r == rel && slots_ok(sp, seed, args@, slots@),
                _ => false,
            },
        },
        _ => s is Opaque,
    }
}

/// `ss` is `ts` lowered in order from register space `sp`.
pub open spec fn slots_ok(sp: Seq<u32>, seed: Seq<(u32, Arg)>, ts: Seq<Term>, ss: Seq<Slot>) -> bool
    decreases ts,
{
    &&& ss.len() == ts.len()
    &&& ts.len() > 0 ==> {
        &&& slots_ok(sp, seed, ts.drop_last(), ss.drop_last())
        &&& match space_after(sp, seed, ts.drop_last()) {
            Some(sp1) => slot_ok(sp1, seed, ts.last(), ss.last()),
            None => false,
        }
    }
}

/// What a `:match` with too many variables is told.
pub open spec fn too_many_vars_text() -> Seq<char> {
    "more than 256 distinct variables in one `:match` — ein.rs numbers a rule's variables into a fixed register file (256 slots) so the matcher's inner loop allocates nothing. Split the rule."@
}

fn too_many_vars() -> (e: CompileError)
    ensures
        e.0@ == too_many_vars_text(),
{
    CompileError(owned("more than 256 distinct variables in one `:match` — ein.rs numbers a rule's variables into a fixed register file (256 slots) so the matcher's inner loop allocates nothing. Split the rule."))
}

fn seed_value(seed: &Vec<(u32, Arg)>, name: u32) -> (r: Option<Arg>)
    ensures
        r == seed_of(seed@, name),
{
    let mut i: usize = 0;
    assert(seed@.skip(0) =~= seed@);
    while i < seed.len()
        invariant
            i <= seed@.len(),
            seed_of(seed@, name) == seed_of(seed@.skip(i as int), name),
        decreases seed@.len() - i,
    {
        assert(seed@.skip(i as int).drop_first() =~= seed@.skip(i + 1));
        if seed[i].0 == name {
            return Some(seed[i].1);
        }
        i = i + 1;
    }
    assert(seed@.skip(i as int).len() == 0);
    None
}

fn find_reg(space: &Vec<u32>, name: u32) -> (r: Option<u16>)
    requires
        space@.len() <= MAX_REGS,
    ensures
        match reg_of(space@, name) {
            Some(k) => r == Some(k as u16),
            None => r is None,
        },
{
    let mut i: usize = space.len();
    assert(space@.take(space@.len() as int) =~= space@);
    while i > 0
        invariant
            i <= space@.len(),
            space@.len() <= MAX_REGS,
            reg_of(space@, name) == reg_of(space@.take(i as int), name),
        decreases i,
    {
        assert(space@.take(i as int).drop_last() =~= space@.take(i - 1));
        if space[i - 1] == name {
            return Some((i - 1) as u16);
        }
        i = i - 1;
    }
    None
}

fn head_of(seed: &Vec<(u32, Arg)>, head: &Term) -> (r: Option<u32>)
    ensures
        r == head_rel(seed@, *head),
{
    match head {
        Term::Atom(s) => Some(*s),
        Term::Var(n) => match seed_value(seed, *n) {
            Some(Arg::Sym(s)) => Some(s),
            _ => None,
        },
        _ => None,
    }
}

proof fn lemma_space_none(space: Seq<u32>, seed: Seq<(u32, Arg)>, ts: Seq<Term>, i: int)
    requires
        0 <= i <= ts.len(),
        space_after(space, seed, ts.take(i)) is None,
    ensures
        space_after(space, seed, ts) is None,
    decreases ts.len() - i,
{
    if i < ts.len() {
        assert(ts.take(i + 1).drop_last() =~= ts.take(i));
        lemma_space_none(space, seed, ts, i + 1);
    } else {
        assert(ts.take(i) =~= ts);
    }
}

/// Lower one node in register space `space`, growing it by each free
/// variable met first: a variable the activator bound becomes its value, a
/// free one its register; a name or a number stays itself; a form whose
/// head is a name, or a variable bound to one, becomes a nested pattern of
/// its arguments; anything else is opaque and never matches. Fails only
/// when the space would pass `MAX_REGS`.
pub fn slot(space: &mut Vec<u32>, seed: &Vec<(u32, Arg)>, t: &Term) -> (r: Result<Slot, CompileError>)
    requires
        old(space)@.len() <= MAX_REGS,
    ensures
        final(space)@.len() <= MAX_REGS,
        match space_after(old(space)@, seed@, seq![*t]) {
            Some(sp) => r is Ok && final(space)@ == sp && slot_ok(old(space)@, seed@, *t, r->Ok_0),
            None => r is Err && r->Err_0.0@ == too_many_vars_text(),
        },
    decreases t,
{
    let ghost sp = space@;
    proof {
        assert(seq![*t].drop_last() =~= Seq::<Term>::empty());
        assert(seq![*t].last() == *t);
        assert(space_after(sp, seed@, Seq::<Term>::empty()) == Some(sp));
    }
    match t {
        Term::Var(n) => match seed_value(seed, *n) {
            Some(v) => Ok(Slot::Const(v)),
            None => match find_reg(space, *n) {
                Some(r) => Ok(Slot::Reg(r)),
                None => {
                    if space.len() >= MAX_REGS {
                        return Err(too_many_vars());
                    }
                    let r = space.len() as u16;
                    space.push(*n);
                    Ok(Slot::Reg(r))
                },
            },
        },
        Term::Atom(a) => Ok(Slot::Const(Arg::Sym(*a))),
        Term::Int(v) => Ok(Slot::Const(Arg::Int(*v))),
        Term::Form { head, args } => match head_of(seed, head) {
            None => Ok(Slot::Opaque),
            Some(rel) => {
                match slots(space, seed, args) {
                    Ok(kids) => Ok(Slot::Nested { rel, slots: kids }),
                    Err(e) => Err(e),
                }
            },
        },
        _ => Ok(Slot::Opaque),
    }
}

/// Lower the nodes `ts` in order, each as [`slot`] does, the register
/// space carried from one to the next.
pub fn slots(space: &mut Vec<u32>, seed: &Vec<(u32, Arg)>, ts: &Vec<Term>) -> (r: Result<Vec<Slot>, CompileError>)
    requires
        old(space)@.len() <= MAX_REGS,
    ensures
        final(space)@.len() <= MAX_REGS,
        match space_after(old(space)@, seed@, ts@) {
            Some(sp) => r is Ok && final(space)@ == sp && slots_ok(old(space)@, seed@, ts@, r->Ok_0@),
            None => r is Err && r->Err_0.0@ == too_many_vars_text(),
        },
    decreases ts@,
{
    let ghost sp0 = space@;
    let mut out: Vec<Slot> = Vec::new();
    let mut i: usize = 0;
    assert(ts@.take(0) =~= Seq::<Term>::empty());
    while i < ts.len()
        invariant
            sp0 == old(space)@,
            i <= ts@.len(),
            space@.len() <= MAX_REGS,
            space_after(sp0, seed@, ts@.take(i as int)) == Some(space@),
            slots_ok(sp0, seed@, ts@.take(i as int), out@),
        decreases ts@.len() - i,
    {
        let ghost sp = space@;
        let ghost pre = out@;
        proof {
            assert(ts@.take(i + 1).drop_last() =~= ts@.take(i as int));
            assert(ts@.take(i + 1).last() == ts@[i as int]);
            let one = seq![ts@[i as int]];
            assert(one.drop_last() =~= Seq::<Term>::empty());
            assert(one.last() == ts@[i as int]);
            assert(space_after(sp, seed@, Seq::<Term>::empty()) == Some(sp));
            assert(space_after(sp, seed@, one) == space_after(sp0, seed@, ts@.take(i + 1)));
            assert(decreases_to!(ts@ => ts@[i as int]));
        }
        match slot(space, seed, &ts[i]) {
            Ok(s) => {
                out.push(s);
                proof {
                    assert(out@.drop_last() =~= pre);
                    assert(out@.last() == s);
                }
            },
            Err(e) => {
                proof {
                    lemma_space_none(sp0, seed@, ts@, i + 1);
                }
                return Err(e);
            },
        }
        i = i + 1;
    }
    assert(ts@.take(ts@.len() as int) =~= ts@);
    Ok(out)
}

/// The arguments a premise matches on: every one but a `:key value` pair.
pub open spec fn positional(ts: Seq<Term>) -> Seq<Term>
    decreases ts.len(),
{
    if ts.len() == 0 {
        Seq::empty()
    } else if ts.last() is KwPair {
        positional(ts.drop_last())
    } else {
        positional(ts.drop_last()).push(ts.last())
    }
}

/// What a premise whose head names no relation is told; `name` is the
/// head variable's name, empty when the head is not a variable.
pub open spec fn unbound_head_text(name: Seq<char>) -> Seq<char> {
    "unbound relation head ?"@ + name
        + " in a premise — M1 matches relations per activator (Q29), so the head var must be bound by the rule's activator. Check that the activator fact's arity matches the rule's parameter list."@
}

/// The name a head variable is shown by.
pub open spec fn head_name(names: Seq<String>, head: Term) -> Seq<char> {
    match head {
        Term::Var(n) => names[n as int]@,
        _ => Seq::empty(),
    }
}

/// A relation premise `(head args…)`: the relation its head names, and its
/// positional arguments lowered in order. A head that is neither a name nor
/// a variable the activator bound to one is refused before any argument is
/// lowered.
pub fn relation(
    space: &mut Vec<u32>,
    seed: &Vec<(u32, Arg)>,
    names: &Vec<String>,
    head: &Term,
    args: &Vec<Term>,
) -> (r: Result<Step, CompileError>)
    requires
        old(space)@.len() <= MAX_REGS,
        head matches Term::Var(n) ==> n < names@.len(),
    ensures
        final(space)@.len() <= MAX_REGS,
        match head_rel(seed@, *head) {
            None => r is Err && final(space)@ == old(space)@ && r->Err_0.0@ == unbound_head_text(head_name(names@, *head)),
            Some(rel) => match space_after(old(space)@, seed@, positional(args@)) {
                Some(sp) => final(space)@ == sp && (r matches Ok(Step::Rel { rel: r2, slots }) && r2 == rel && slots_ok(
                    old(space)@,
                    seed@,
                    positional(args@),
                    slots@,
                )),
                None => r is Err && r->Err_0.0@ == too_many_vars_text(),
            },
        },
{
    let rel = match head_of(seed, head) {
        Some(rel) => rel,
        None => {
            let mut msg = owned("unbound relation head ?");
            match head {
                Term::Var(n) => msg.append(names[*n as usize].as_str()),
                _ => {},
            }
            msg.append(" in a premise — M1 matches relations per activator (Q29), so the head var must be bound by the rule's activator. Check that the activator fact's arity matches the rule's parameter list.");
            proof {
                assert(msg@ =~= unbound_head_text(head_name(names@, *head)));
            }
            return Err(CompileError(msg));
        },
    };
    let ghost sp0 = space@;
    let mut out: Vec<Slot> = Vec::new();
    let mut i: usize = 0;
    assert(args@.take(0) =~= Seq::<Term>::empty());
    while i < args.len()
        invariant
            sp0 == old(space)@,
            head_rel(seed@, *head) == Some(rel),
            i <= args@.len(),
            space@.len() <= MAX_REGS,
            space_after(sp0, seed@, positional(args@.take(i as int))) == Some(space@),
            slots_ok(sp0, seed@, positional(args@.take(i as int)), out@),
        decreases args@.len() - i,
    {
        let ghost sp = space@;
        let ghost pre = out@;
        let ghost done = positional(args@.take(i as int));
        proof {
            assert(args@.take(i + 1).drop_last() =~= args@.take(i as int));
            assert(args@.take(i + 1).last() == args@[i as int]);
        }
        match &args[i] {
            Term::KwPair => {},
            t => {
                proof {
                    let one = seq![*t];
                    assert(positional(args@.take(i + 1)) == done.push(*t));
                    assert(done.push(*t).drop_last() =~= done);
                    assert(done.push(*t).last() == *t);
                    assert(one.drop_last() =~= Seq::<Term>::empty());
                    assert(one.last() == *t);
                    assert(space_after(sp, seed@, Seq::<Term>::empty()) == Some(sp));
                    assert(space_after(sp, seed@, one) == space_after(sp0, seed@, done.push(*t)));
                }
                match slot(space, seed, t) {
                    Ok(s) => {
                        out.push(s);
                        proof {
                            assert(out@.drop_last() =~= pre);
                            assert(out@.last() == s);
                        }
                    },
                    Err(e) => {
                        proof {
                            lemma_positional_none(sp0, seed@, args@, i + 1);
                        }
                        return Err(e);
                    },
                }
            },
        }
        i = i + 1;
    }
    assert(args@.take(args@.len() as int) =~= args@);
    Ok(Step::Rel { rel, slots: out })
}

proof fn lemma_positional_none(space: Seq<u32>, seed: Seq<(u32, Arg)>, ts: Seq<Term>, i: int)
    requires
        0 <= i <= ts.len(),
        space_after(space, seed, positional(ts.take(i))) is None,
    ensures
        space_after(space, seed, positional(ts)) is None,
    decreases ts.len() - i,
{
    if i < ts.len() {
        assert(ts.take(i + 1).drop_last() =~= ts.take(i));
        let p = positional(ts.take(i));
        if !(ts[i] is KwPair) {
            assert(p.push(ts[i]).drop_last() =~= p);
        }
        lemma_positional_none(space, seed, ts, i + 1);
    } else {
        assert(ts.take(i) =~= ts);
    }
}

} // verus!
