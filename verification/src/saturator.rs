//! Saturation of guard-free rules: every rule's matches fired, round after
//! round, until a round writes nothing — the fixed point.
use vstd::prelude::*;

use crate::facts::{unique_rows, Arg, FactTable};
use crate::firing::{build_fault, held_witness, fire, grown, regs_ok, template_ok, denotes, written, FireError, Firing};
use crate::match_::{
    bind_all, bind_from, bind_slot, candidates, held_ok, seed_fact, seed_here, slot_ok, step_ok, steps_ok,
    tagged, run_upto, walk, Matcher, Plan, Slot, Step,
};
use crate::mirror::kb_ok;
use crate::text::{digits, owned, push_digits};

verus! {

/// A value of the table: a name it has, a number, or a fact it interned.
pub open spec fn value_ok(tbl: &FactTable, a: Arg) -> bool {
    tbl.arg_ok(a, tbl.rows@.len() as int)
}

proof fn lemma_bind_slot_ok(tbl: &FactTable, s: Slot, a: Arg, regs: Seq<Option<Arg>>, trail: Seq<u16>)
    requires
        tbl.wf(),
        value_ok(tbl, a),
        regs_ok(tbl, regs),
        slot_ok(s, regs.len()),
    ensures
        bind_slot(tbl, s, a, regs, trail) matches Some(b) ==> regs_ok(tbl, b.0),
    decreases s, 0int, 0int,
{
    match s {
        Slot::Reg(r) => {
            if regs[r as int] is None {
                let r1 = regs.update(r as int, Some(a));
                assert forall|q: int| 0 <= q < r1.len() && (#[trigger] r1[q]) is Some implies tbl.arg_ok(r1[q]->0, tbl.rows@.len() as int) by {
                    if q != r as int {
                        assert(r1[q] == regs[q]);
                    }
                }
            }
        },
        Slot::Nested { rel, slots } => {
            if let Arg::Fact(id) = a {
                if id < tbl.rows@.len() {
                    let args = tbl.rows@[id as int].args@;
                    assert forall|k: int| 0 <= k < args.len() implies value_ok(tbl, #[trigger] args[k]) by {
                        assert(tbl.row_ok(id as int));
                        assert(tbl.arg_ok(args[k], id as int));
                    }
                    lemma_bind_from_ok(tbl, slots@, args, 0, regs, trail);
                }
            }
        },
        _ => {},
    }
}

proof fn lemma_bind_from_ok(
    tbl: &FactTable,
    slots: Seq<Slot>,
    args: Seq<Arg>,
    k: int,
    regs: Seq<Option<Arg>>,
    trail: Seq<u16>,
)
    requires
        tbl.wf(),
        forall|q: int| 0 <= q < args.len() ==> value_ok(tbl, #[trigger] args[q]),
        regs_ok(tbl, regs),
        forall|q: int| 0 <= q < slots.len() ==> slot_ok(#[trigger] slots[q], regs.len()),
    ensures
        bind_from(tbl, slots, args, k, regs, trail) matches Some(b) ==> regs_ok(tbl, b.0),
    decreases slots, 1int, slots.len() - k,
{
    if 0 <= k < slots.len() && k < args.len() {
        lemma_bind_slot_ok(tbl, slots[k], args[k], regs, trail);
        crate::match_::lemma_bind_slot_extends(tbl, slots[k], args[k], regs, trail);
        if let Some(b) = bind_slot(tbl, slots[k], args[k], regs, trail) {
            lemma_bind_from_ok(tbl, slots, args, k + 1, b.0, b.1);
        }
    }
}

/// Every match's registers hold values of the table, when the state it
/// started from did: a match binds only arguments of held facts.
pub proof fn lemma_matches_bind_values(
    tbl: &FactTable,
    kb: Seq<u32>,
    steps: Seq<Step>,
    i: int,
    seed: Option<(int, u32)>,
    e: (Seq<Option<Arg>>, Seq<u16>, Seq<u32>),
)
    requires
        tbl.wf(),
        held_ok(tbl, kb),
        steps_ok(steps, e.0.len()),
        regs_ok(tbl, e.0),
    ensures
        forall|q: int| 0 <= q < walk(tbl, kb, steps, i, seed, e).len() ==> regs_ok(tbl, (#[trigger] walk(tbl, kb, steps, i, seed, e)[q]).0),
    decreases steps, steps.len() - i, kb.len() + 1,
{
    let w = walk(tbl, kb, steps, i, seed, e);
    if i < 0 || i >= steps.len() {
        assert(w == seq![e]);
    } else if seed_here(seed, i) {
        let e1 = (e.0, e.1, e.2.push(seed_fact(seed)));
        assert(w == walk(tbl, kb, steps, i + 1, seed, e1));
        lemma_matches_bind_values(tbl, kb, steps, i + 1, seed, e1);
    } else {
        match steps[i] {
            Step::Rel { rel, slots } => {
                assert(step_ok(steps[i], e.0.len()));
                assert(w == candidates(tbl, kb, steps, i, seed, rel, slots@, 0, e));
                lemma_candidates_bind_values(tbl, kb, steps, i, seed, rel, slots@, 0, e);
            },
            Step::Guard { pred, a, b } => {
                lemma_matches_bind_values(tbl, kb, steps, i + 1, seed, e);
                if crate::match_::guard_passes(pred, e.0, a, b) {
                    assert(w == walk(tbl, kb, steps, i + 1, seed, e));
                } else {
                    assert(w.len() == 0);
                }
            },
            Step::Absent { sub } => {
                lemma_matches_bind_values(tbl, kb, steps, i + 1, seed, e);
                if walk(tbl, kb, sub@, 0, None, e).len() == 0 {
                    assert(w == walk(tbl, kb, steps, i + 1, seed, e));
                } else {
                    assert(w.len() == 0);
                }
            },
        }
    }
}

proof fn lemma_candidates_bind_values(
    tbl: &FactTable,
    kb: Seq<u32>,
    steps: Seq<Step>,
    i: int,
    seed: Option<(int, u32)>,
    rel: u32,
    slots: Seq<Slot>,
    j: int,
    e: (Seq<Option<Arg>>, Seq<u16>, Seq<u32>),
)
    requires
        tbl.wf(),
        held_ok(tbl, kb),
        steps_ok(steps, e.0.len()),
        regs_ok(tbl, e.0),
        forall|q: int| 0 <= q < slots.len() ==> slot_ok(#[trigger] slots[q], e.0.len()),
    ensures
        forall|q: int|
            0 <= q < candidates(tbl, kb, steps, i, seed, rel, slots, j, e).len() ==> regs_ok(
                tbl,
                (#[trigger] candidates(tbl, kb, steps, i, seed, rel, slots, j, e)[q]).0,
            ),
    decreases steps, steps.len() - i, kb.len() - j,
{
    if j < 0 || j >= kb.len() || i < 0 || i >= steps.len() {
    } else {
        let f = kb[j];
        let c = candidates(tbl, kb, steps, i, seed, rel, slots, j, e);
        let rest = candidates(tbl, kb, steps, i, seed, rel, slots, j + 1, e);
        lemma_candidates_bind_values(tbl, kb, steps, i, seed, rel, slots, j + 1, e);
        let here = if f < tbl.rows@.len() && tbl.rows@[f as int].rel == rel {
            match bind_all(tbl, slots, tbl.rows@[f as int].args@, e.0, e.1) {
                Some(b) => walk(tbl, kb, steps, i + 1, seed, (b.0, b.1, e.2.push(f))),
                None => Seq::empty(),
            }
        } else {
            Seq::empty()
        };
        assert(c == here + rest);
        if f < tbl.rows@.len() && tbl.rows@[f as int].rel == rel {
            let args = tbl.rows@[f as int].args@;
            if slots.len() == args.len() {
                assert forall|k: int| 0 <= k < args.len() implies value_ok(tbl, #[trigger] args[k]) by {
                    assert(tbl.row_ok(f as int));
                    assert(tbl.arg_ok(args[k], f as int));
                }
                lemma_bind_from_ok(tbl, slots, args, 0, e.0, e.1);
                crate::match_::lemma_bind_from_extends(tbl, slots, args, 0, e.0, e.1);
            }
            if let Some(b) = bind_all(tbl, slots, args, e.0, e.1) {
                let e1 = (b.0, b.1, e.2.push(f));
                lemma_matches_bind_values(tbl, kb, steps, i + 1, seed, e1);
            }
        }
        assert forall|q: int| 0 <= q < c.len() implies regs_ok(tbl, (#[trigger] c[q]).0) by {
            if q < here.len() {
                assert(c[q] == here[q]);
            } else {
                assert(c[q] == rest[q - here.len()]);
            }
        }
    }
}

/// A guard-free rule: its compiled `:match` and its `:assert` templates.
pub struct Rule {
    pub plan: Plan,
    pub asserts: Vec<Slot>,
}

/// Why saturation stopped short of the fixed point.
#[derive(Clone, PartialEq, Eq, Debug)]
pub enum SaturateError {
    Fire(FireError),
    /// The step budget ran out: its message names the budget.
    StepLimit(String),
}

/// Every rule fits its register space, its templates and seed are values
/// of the table.
pub open spec fn rules_ok(tbl: &FactTable, rules: Seq<Rule>) -> bool {
    forall|i: int| 0 <= i < rules.len() ==> rule_ok(tbl, #[trigger] rules[i])
}

pub open spec fn rule_ok(tbl: &FactTable, r: Rule) -> bool {
    &&& r.plan.wf()
    &&& regs_ok(tbl, r.plan.start().0)
    &&& forall|j: int| 0 <= j < r.asserts@.len() ==> template_ok(tbl, #[trigger] r.asserts@[j], r.plan.n_regs as nat)
}

/// Every match of the rule on the KB builds its conclusions, and the KB
/// holds each one.
pub open spec fn rule_fixed(tbl: &FactTable, kb: Seq<u32>, r: Rule) -> bool {
    forall|q: int, j: int|
        0 <= q < run_upto(tbl, kb, &r.plan, r.plan.disjuncts@.len() as int).len() && 0 <= j < r.asserts@.len() ==> {
            let regs = (#[trigger] run_upto(tbl, kb, &r.plan, r.plan.disjuncts@.len() as int)[q]).1.0;
            &&& build_fault(#[trigger] r.asserts@[j], regs) is None
            &&& exists|id: u32| kb.contains(id) && denotes(tbl, id, r.asserts@[j], regs)
        }
}

/// The fixed point: no rule concludes anything the KB lacks.
pub open spec fn fixed(tbl: &FactTable, kb: Seq<u32>, rules: Seq<Rule>) -> bool {
    forall|i: int| 0 <= i < rules.len() ==> rule_fixed(tbl, kb, #[trigger] rules[i])
}

pub open spec fn step_limit_text(n: usize) -> Seq<char> {
    "saturator hit max_steps="@ + digits(n as nat) + " without reaching fixed point"@
}

proof fn lemma_regs_ok_grown(t0: &FactTable, t1: &FactTable, regs: Seq<Option<Arg>>)
    requires
        grown(t0, t1),
        regs_ok(t0, regs),
    ensures
        regs_ok(t1, regs),
{
}

proof fn lemma_rule_ok_grown(t0: &FactTable, t1: &FactTable, r: Rule)
    requires
        grown(t0, t1),
        rule_ok(t0, r),
    ensures
        rule_ok(t1, r),
{
    assert forall|j: int| 0 <= j < r.asserts@.len() implies template_ok(t1, #[trigger] r.asserts@[j], r.plan.n_regs as nat) by {
        crate::firing::lemma_template_grown(t0, t1, r.asserts@[j], r.plan.n_regs as nat);
    }
}

/// Every match of a rule binds values of the table, in a register file of
/// the plan's size.
proof fn lemma_run_values(tbl: &FactTable, kb: Seq<u32>, plan: &Plan, k: int)
    requires
        tbl.wf(),
        held_ok(tbl, kb),
        plan.wf(),
        regs_ok(tbl, plan.start().0),
        k <= plan.disjuncts@.len(),
    ensures
        forall|q: int| 0 <= q < run_upto(tbl, kb, plan, k).len() ==> regs_ok(tbl, (#[trigger] run_upto(tbl, kb, plan, k)[q]).1.0)
            && run_upto(tbl, kb, plan, k)[q].1.0.len() == plan.n_regs,
    decreases k,
{
    if k > 0 {
        lemma_run_values(tbl, kb, plan, k - 1);
        let prev = run_upto(tbl, kb, plan, k - 1);
        let steps = plan.disjuncts@[k - 1]@;
        assert(steps_ok(steps, plan.n_regs as nat));
        let w = walk(tbl, kb, steps, 0, None, plan.start());
        lemma_matches_bind_values(tbl, kb, steps, 0, None, plan.start());
        crate::match_::lemma_matches_grow(tbl, kb, steps, 0, None, plan.start());
        let cur = run_upto(tbl, kb, plan, k);
        assert(cur == prev + crate::match_::tag(k - 1, w));
        assert forall|q: int| 0 <= q < cur.len() implies regs_ok(tbl, (#[trigger] cur[q]).1.0) && cur[q].1.0.len() == plan.n_regs by {
            if q >= prev.len() {
                assert(cur[q] == (k - 1, w[q - prev.len()]));
                assert(crate::match_::grows(plan.start(), w[q - prev.len()]));
            } else {
                assert(cur[q] == prev[q]);
            }
        }
    }
}

proof fn lemma_same_len_grown(t0: &FactTable, t1: &FactTable)
    requires
        grown(t0, t1),
        t1.rows@.len() == t0.rows@.len(),
    ensures
        t1.rows@ == t0.rows@,
{
    assert(t1.rows@.take(t0.rows@.len() as int) =~= t1.rows@);
}

proof fn lemma_same_len_prefix(k0: Seq<u32>, k1: Seq<u32>)
    requires
        k0.len() <= k1.len(),
        k1.take(k0.len() as int) == k0,
        k1.len() == k0.len(),
    ensures
        k1 == k0,
{
    assert(k1.take(k0.len() as int) =~= k1);
}

/// Fact `kbf[k]` is the `j`-th conclusion of rule `i` under its `q`-th
/// match in the table `t` and the KB's first `p` facts, all written before
/// it.
pub open spec fn made_by(tf: &FactTable, kbf: Seq<u32>, rules: Seq<Rule>, k: int, t: FactTable, p: int, i: int, q: int, j: int) -> bool {
    &&& grown(&t, tf)
    &&& 0 <= p <= k < kbf.len()
    &&& 0 <= i < rules.len()
    &&& 0 <= q < run_upto(&t, kbf.take(p), &rules[i].plan, rules[i].plan.disjuncts@.len() as int).len()
    &&& 0 <= j < rules[i].asserts@.len()
    &&& denotes(
        tf,
        kbf[k],
        rules[i].asserts@[j],
        run_upto(&t, kbf.take(p), &rules[i].plan, rules[i].plan.disjuncts@.len() as int)[q].1.0,
    )
}

/// Conclusion `j` of rule `i`, under match `q` of its plan over table `t`
/// and the first `p` facts of `kbf`, cannot be built, and `e` says why.
pub open spec fn faulted_by(
    tf: &FactTable,
    kbf: Seq<u32>,
    rules: Seq<Rule>,
    e: FireError,
    t: FactTable,
    p: int,
    i: int,
    q: int,
    j: int,
) -> bool {
    &&& grown(&t, tf)
    &&& 0 <= p <= kbf.len()
    &&& 0 <= i < rules.len()
    &&& 0 <= q < run_upto(&t, kbf.take(p), &rules[i].plan, rules[i].plan.disjuncts@.len() as int).len()
    &&& 0 <= j < rules[i].asserts@.len()
    &&& build_fault(rules[i].asserts@[j], run_upto(&t, kbf.take(p), &rules[i].plan, rules[i].plan.disjuncts@.len() as int)[q].1.0) is Some
    &&& crate::firing::built(
        tf,
        rules[i].asserts@[j],
        run_upto(&t, kbf.take(p), &rules[i].plan, rules[i].plan.disjuncts@.len() as int)[q].1.0,
        Err(e),
    )
}

/// Fact `kbf[k]` is a conclusion some rule drew from the facts before it.
pub open spec fn derived_fact(tf: &FactTable, kbf: Seq<u32>, rules: Seq<Rule>, k: int) -> bool {
    exists|t: FactTable, p: int, i: int, q: int, j: int| #[trigger] made_by(tf, kbf, rules, k, t, p, i, q, j)
}

proof fn lemma_derived_kept(tf1: &FactTable, kb1: Seq<u32>, tf2: &FactTable, kb2: Seq<u32>, rules: Seq<Rule>, k: int)
    requires
        derived_fact(tf1, kb1, rules, k),
        grown(tf1, tf2),
        kb1.len() <= kb2.len(),
        kb2.take(kb1.len() as int) == kb1,
    ensures
        derived_fact(tf2, kb2, rules, k),
{
    let (t, p, i, q, j) = choose|t: FactTable, p: int, i: int, q: int, j: int| #[trigger] made_by(tf1, kb1, rules, k, t, p, i, q, j);
    crate::firing::lemma_grown_trans(&t, tf1, tf2);
    assert(kb2.take(p) =~= kb1.take(p)) by {
        assert forall|x: int| 0 <= x < p implies kb2[x] == kb1[x] by {
            assert(kb2.take(kb1.len() as int)[x] == kb2[x]);
        }
    }
    assert(kb2[k] == kb1[k]) by {
        assert(kb2.take(kb1.len() as int)[k] == kb2[k]);
    }
    let regs = run_upto(&t, kb1.take(p), &rules[i].plan, rules[i].plan.disjuncts@.len() as int)[q].1.0;
    crate::firing::lemma_denotes_grown(tf1, tf2, kb1[k], rules[i].asserts@[j], regs);
    assert(made_by(tf2, kb2, rules, k, t, p, i, q, j));
}

/// A KB of distinct facts of the table holds no more facts than the table.
proof fn lemma_kb_len(tbl: &FactTable, kb: Seq<u32>)
    requires
        kb_ok(tbl, kb),
    ensures
        kb.len() <= tbl.rows@.len(),
{
    let s = kb.map_values(|x: u32| x as int);
    assert(s.no_duplicates()) by {
        assert forall|a: int, b: int| 0 <= a < b < s.len() implies s[a] != s[b] by {
            assert(kb[a] != kb[b]);
        }
    }
    s.unique_seq_to_set();
    let range = vstd::set_lib::set_int_range(0, tbl.rows@.len() as int);
    vstd::set_lib::lemma_int_range(0, tbl.rows@.len() as int);
    assert(s.to_set().subset_of(range)) by {
        assert forall|x: int| s.to_set().contains(x) implies range.contains(x) by {
            let w = choose|w: int| 0 <= w < s.len() && s[w] == x;
            assert(kb[w] < tbl.rows@.len());
        }
    }
    vstd::set_lib::lemma_len_subset(s.to_set(), range);
}

/// Every rule concludes at most one fact, so a productive firing writes
/// exactly one.
pub open spec fn single_conclusions(rules: Seq<Rule>) -> bool {
    forall|i: int| 0 <= i < rules.len() ==> (#[trigger] rules[i]).asserts@.len() <= 1
}

/// `kbs` is the KB before each firing of `fs` and after the last: each
/// firing wrote its derived facts and at least one of them was new.
pub open spec fn replays(kb0: Seq<u32>, fs: Seq<Firing>, kbs: Seq<Seq<u32>>) -> bool {
    &&& kbs.len() == fs.len() + 1
    &&& kbs[0] == kb0
    &&& forall|j: int| 0 <= j < fs.len() ==> productive(kbs[j], #[trigger] fs[j], kbs[j + 1])
}

/// Firing `f` took the KB from `kb0` to `kb1` and wrote at least one new
/// fact.
pub open spec fn productive(kb0: Seq<u32>, f: Firing, kb1: Seq<u32>) -> bool {
    kb0.len() < kb1.len() && written(kb0, f.derived@, kb1)
}

/// Writing the firings `fs` in order, each productive, takes `kb0` to `kb1`.
pub open spec fn logged(kb0: Seq<u32>, fs: Seq<Firing>, kb1: Seq<u32>) -> bool {
    exists|kbs: Seq<Seq<u32>>| #[trigger] replays(kb0, fs, kbs) && kbs.last() == kb1
}

proof fn lemma_log_step(
    kb_in: Seq<u32>,
    log_in: Seq<Firing>,
    log_f: Seq<Firing>,
    log_new: Seq<Firing>,
    kbs: Seq<Seq<u32>>,
    kb_new: Seq<u32>,
    f: Firing,
)
    requires
        log_in.len() <= log_f.len(),
        log_f.take(log_in.len() as int) == log_in,
        replays(kb_in, log_f.skip(log_in.len() as int), kbs),
        log_new == log_f.push(f),
        kbs.last().len() < kb_new.len(),
        written(kbs.last(), f.derived@, kb_new),
    ensures
        log_new.take(log_in.len() as int) == log_in,
        replays(kb_in, log_new.skip(log_in.len() as int), kbs.push(kb_new)),
        kbs.push(kb_new).last() == kb_new,
{
    let l = log_in.len() as int;
    assert(log_new.take(l) =~= log_in) by {
        assert forall|x: int| 0 <= x < l implies log_new[x] == log_in[x] by {
            assert(log_f.take(l)[x] == log_f[x]);
        }
    }
    let old_fs = log_f.skip(l);
    let fs = log_new.skip(l);
    assert(fs =~= old_fs.push(f));
    let kbs2 = kbs.push(kb_new);
    assert forall|j: int| 0 <= j < fs.len() implies productive(kbs2[j], #[trigger] fs[j], kbs2[j + 1]) by {
        if j < old_fs.len() {
            assert(fs[j] == old_fs[j]);
            assert(kbs2[j] == kbs[j]);
            assert(kbs2[j + 1] == kbs[j + 1]);
            assert(productive(kbs[j], old_fs[j], kbs[j + 1]));
        } else {
            assert(j == old_fs.len());
            assert(fs[j] == f);
            assert(kbs2[j] == kbs.last());
            assert(kbs2[j + 1] == kb_new);
        }
    }
    assert(kbs2[0] == kb_in);
    assert(kbs2.len() == fs.len() + 1);
    assert(replays(kb_in, fs, kbs2));
}

/// The step budget: `max_steps`, or all a `usize` counts.
pub open spec fn budget(max_steps: Option<usize>) -> usize {
    match max_steps {
        Some(m) => m,
        None => usize::MAX,
    }
}

/// `saturator hit max_steps=N without reaching fixed point`.
fn limit_message(n: usize) -> (msg: String)
    ensures
        msg@ == step_limit_text(n),
{
    let mut msg = owned("saturator hit max_steps=");
    push_digits(&mut msg, n as u64);
    let tail = " without reaching fixed point";
    let ghost m0 = msg@;
    let mut k: usize = 0;
    proof {
        reveal_strlit("saturator hit max_steps=");
        reveal_strlit(" without reaching fixed point");
    }
    while k < tail.unicode_len()
        invariant
            k <= tail@.len(),
            msg@ == m0 + tail@.take(k as int),
        decreases tail@.len() - k,
    {
        crate::text::push_char(&mut msg, tail.get_char(k));
        assert(tail@.take(k + 1) =~= tail@.take(k as int).push(tail@[k as int]));
        k = k + 1;
    }
    assert(tail@.take(tail@.len() as int) =~= tail@);
    msg
}

proof fn lemma_prefix_trans(a: Seq<u32>, b: Seq<u32>, c: Seq<u32>)
    requires
        a.len() <= b.len(),
        b.take(a.len() as int) == a,
        b.len() <= c.len(),
        c.take(b.len() as int) == b,
    ensures
        a.len() <= c.len(),
        c.take(a.len() as int) == a,
{
    assert(c.take(a.len() as int) =~= a) by {
        assert forall|k: int| 0 <= k < a.len() implies c[k] == a[k] by {
            assert(c.take(b.len() as int)[k] == b[k]);
            assert(b.take(a.len() as int)[k] == a[k]);
        }
    }
}

proof fn lemma_prefix_mid(a: Seq<u32>, b: Seq<u32>, c: Seq<u32>)
    requires
        a.len() <= b.len(),
        b.len() <= c.len(),
        c.take(a.len() as int) == a,
        c.take(b.len() as int) == b,
    ensures
        b.take(a.len() as int) == a,
{
    assert(b.take(a.len() as int) =~= a) by {
        assert forall|k: int| 0 <= k < a.len() implies b[k] == a[k] by {
            assert(c.take(b.len() as int)[k] == b[k]);
            assert(c.take(a.len() as int)[k] == a[k]);
        }
    }
}

/// Fire every rule, round after round, until a round writes nothing; the
/// number of productive firings — those that wrote a new fact — each of
/// which is appended to `log` as it happens. Within a
/// round the rules fire in order, each over the matches of the KB as it
/// stands when its turn comes. A firing error stops the run; so does
/// reaching `max_steps` productive firings before the fixed point, checked
/// before each firing. With no budget the run is bounded only by the count
/// a `usize` holds.
pub fn saturate(
    tbl: &mut FactTable,
    kb: &mut Vec<u32>,
    rules: &Vec<Rule>,
    max_steps: Option<usize>,
    log: &mut Vec<Firing>,
) -> (r: Result<usize, SaturateError>)
    requires
        old(tbl).wf(),
        unique_rows(old(tbl)),
        old(tbl).rows@.len() <= u32::MAX,
        kb_ok(old(tbl), old(kb)@),
        rules_ok(old(tbl), rules@),
    ensures
        final(tbl).wf(),
        unique_rows(final(tbl)),
        grown(old(tbl), final(tbl)),
        final(tbl).rows@.len() <= u32::MAX,
        kb_ok(final(tbl), final(kb)@),
        final(kb)@.len() >= old(kb)@.len(),
        final(kb)@.take(old(kb)@.len() as int) == old(kb)@,
        r is Ok ==> fixed(final(tbl), final(kb)@, rules@),
        r matches Ok(n) ==> n < budget(max_steps),
        r matches Err(SaturateError::StepLimit(msg)) ==> msg@ == step_limit_text(budget(max_steps)),
        r matches Err(SaturateError::Fire(e)) ==> e is Overflow ==> final(tbl).rows@.len() >= u32::MAX,
        r matches Err(SaturateError::Fire(e)) ==> e is Overflow || exists|t: FactTable, p: int, i: int, q: int, j: int|
            #[trigger] faulted_by(final(tbl), final(kb)@, rules@, e, t, p, i, q, j),
        old(tbl).rows@.len() < u32::MAX && fixed(old(tbl), old(kb)@, rules@) && budget(max_steps) > 0 ==> (r
            == Ok::<usize, SaturateError>(0) && *final(tbl) == *old(tbl) && final(kb)@ == old(kb)@),
        forall|k: int| old(kb)@.len() <= k < final(kb)@.len() ==> #[trigger] derived_fact(final(tbl), final(kb)@, rules@, k),
        r matches Ok(n) ==> n <= final(kb)@.len() - old(kb)@.len() && (n == 0 <==> final(kb)@.len() == old(kb)@.len()),
        r matches Err(SaturateError::StepLimit(_)) ==> final(kb)@.len() >= old(kb)@.len() + budget(max_steps),
        max_steps is None && final(tbl).rows@.len() < u32::MAX ==> !(r matches Err(SaturateError::StepLimit(_))),
        single_conclusions(rules@) ==> (r matches Ok(n) ==> n == final(kb)@.len() - old(kb)@.len()),
        single_conclusions(rules@) ==> (r matches Err(SaturateError::StepLimit(_)) ==> final(kb)@.len() == old(kb)@.len() + budget(max_steps)),
        final(log)@.len() >= old(log)@.len(),
        final(log)@.take(old(log)@.len() as int) == old(log)@,
        logged(old(kb)@, final(log)@.skip(old(log)@.len() as int), final(kb)@),
        r matches Ok(n) ==> final(log)@.len() == old(log)@.len() + n,
        r matches Err(SaturateError::StepLimit(_)) ==> final(log)@.len() == old(log)@.len() + budget(max_steps),
{
    let cap: usize = match max_steps {
        Some(m) => m,
        None => usize::MAX,
    };
    let ghost t_in = *tbl;
    let ghost kb_in = kb@;
    let ghost log_in = log@;
    let ghost mut kbs: Seq<Seq<u32>> = seq![kb@];
    proof {
        assert(tbl.rows@.take(tbl.rows@.len() as int) =~= tbl.rows@);
        assert(kb@.take(kb@.len() as int) =~= kb@);
        assert(log@.take(log@.len() as int) =~= log@);
        assert(log@.skip(log@.len() as int) =~= Seq::<Firing>::empty());
    }
    let ghost idem = t_in.rows@.len() < u32::MAX && fixed(&t_in, kb_in, rules@) && budget(max_steps) > 0;
    let mut fired: usize = 0;
    let mut m = Matcher::new();
    loop
        invariant
            t_in == *old(tbl),
            kb_in == old(kb)@,
            cap == budget(max_steps),
            tbl.wf(),
            unique_rows(tbl),
            tbl.rows@.len() <= u32::MAX,
            grown(&t_in, tbl),
            kb_ok(tbl, kb@),
            kb_in.len() <= kb@.len(),
            kb@.take(kb_in.len() as int) == kb_in,
            rules_ok(tbl, rules@),
            fired <= cap,
            idem == (t_in.rows@.len() < u32::MAX && fixed(&t_in, kb_in, rules@) && budget(max_steps) > 0),
            idem ==> (*tbl == t_in && kb@ == kb_in && fired == 0),
            fired <= kb@.len() - kb_in.len(),
            single_conclusions(rules@) ==> fired == kb@.len() - kb_in.len(),
            kb@.len() > kb_in.len() ==> fired > 0,
            forall|k: int| kb_in.len() <= k < kb@.len() ==> #[trigger] derived_fact(tbl, kb@, rules@, k),
            log_in == old(log)@,
            log@.len() == log_in.len() + fired,
            log@.take(log_in.len() as int) == log_in,
            replays(kb_in, log@.skip(log_in.len() as int), kbs),
            kbs.last() == kb@,
        decreases cap - fired, u32::MAX - tbl.rows@.len(),
    {
        if fired >= cap {
            proof {
                lemma_kb_len(tbl, kb@);
                assert(replays(kb_in, log@.skip(log_in.len() as int), kbs) && kbs.last() == kb@);
            }
            return Err(SaturateError::StepLimit(limit_message(cap)));
        }
        let ghost t_r = *tbl;
        let ghost kb_r = kb@;
        let ghost fired_r = fired;
        proof {
            assert(tbl.rows@.take(tbl.rows@.len() as int) =~= tbl.rows@);
            assert(kb@.take(kb@.len() as int) =~= kb@);
        }
        let rows_before = tbl.rows.len();
        let kb_before = kb.len();
        let mut i: usize = 0;
        while i < rules.len()
            invariant
                t_in == *old(tbl),
                kb_in == old(kb)@,
                cap == budget(max_steps),
                tbl.wf(),
                unique_rows(tbl),
                tbl.rows@.len() <= u32::MAX,
                grown(&t_in, tbl),
                grown(&t_r, tbl),
                tbl.rows@.len() == t_r.rows@.len() ==> *tbl == t_r,
                kb_ok(tbl, kb@),
                kb_in.len() <= kb@.len(),
                kb@.take(kb_in.len() as int) == kb_in,
                kb_r.len() <= kb@.len(),
                kb@.take(kb_r.len() as int) == kb_r,
                rules_ok(tbl, rules@),
                fired <= cap,
                fired_r < cap,
                fired_r <= fired,
                (fired == fired_r) == (kb@.len() == kb_r.len()),
                rows_before == t_r.rows@.len(),
                kb_before == kb_r.len(),
                i <= rules@.len(),
                idem == (t_in.rows@.len() < u32::MAX && fixed(&t_in, kb_in, rules@) && budget(max_steps) > 0),
                idem ==> (*tbl == t_in && kb@ == kb_in && fired == 0 && t_r == t_in && kb_r == kb_in),
                fired <= kb@.len() - kb_in.len(),
                single_conclusions(rules@) ==> fired == kb@.len() - kb_in.len(),
                kb@.len() > kb_in.len() ==> fired > 0,
                forall|k: int| kb_in.len() <= k < kb@.len() ==> #[trigger] derived_fact(tbl, kb@, rules@, k),
                log_in == old(log)@,
                log@.len() == log_in.len() + fired,
                log@.take(log_in.len() as int) == log_in,
                replays(kb_in, log@.skip(log_in.len() as int), kbs),
                kbs.last() == kb@,
                *tbl == t_r && kb@ == kb_r ==> forall|i2: int| 0 <= i2 < i ==> rule_fixed(&t_r, kb_r, #[trigger] rules@[i2]),
            decreases rules@.len() - i,
        {
            let rule = &rules[i];
            proof {
                assert(rule_ok(tbl, rules@[i as int]));
                lemma_run_values(tbl, kb@, &rule.plan, rule.plan.disjuncts@.len() as int);
            }
            let ghost t_q = *tbl;
            let ghost kb_q = kb@;
            proof {
                assert(tbl.rows@.take(tbl.rows@.len() as int) =~= tbl.rows@);
                assert(kb@.take(kb@.len() as int) =~= kb@);
                if kb_q.len() == kb_r.len() {
                    lemma_same_len_prefix(kb_r, kb_q);
                }
            }
            let found = m.run(tbl, kb, &rule.plan);
            let ghost ms = run_upto(&t_q, kb_q, &rule.plan, rule.plan.disjuncts@.len() as int);
            proof {
                assert(tagged(found@) == ms);
                assert forall|q: int| 0 <= q < found@.len() implies (#[trigger] found@[q]).regs@ == ms[q].1.0 by {
                    assert(tagged(found@)[q] == ms[q]);
                }
            }
            let mut q: usize = 0;
            while q < found.len()
                invariant
                    t_in == *old(tbl),
                    kb_in == old(kb)@,
                    cap == budget(max_steps),
                    tbl.wf(),
                    unique_rows(tbl),
                    tbl.rows@.len() <= u32::MAX,
                    grown(&t_in, tbl),
                    grown(&t_r, tbl),
                    grown(&t_q, tbl),
                    grown(&t_r, &t_q),
                    tbl.rows@.len() == t_r.rows@.len() ==> *tbl == t_r,
                    t_q.rows@.len() == t_r.rows@.len() ==> t_q == t_r,
                    kb_q.len() == kb_r.len() ==> kb_q == kb_r,
                    kb_ok(tbl, kb@),
                    kb_in.len() <= kb@.len(),
                    kb@.take(kb_in.len() as int) == kb_in,
                    kb_r.len() <= kb@.len(),
                    kb@.take(kb_r.len() as int) == kb_r,
                    kb_q.len() <= kb@.len(),
                    kb@.take(kb_q.len() as int) == kb_q,
                    kb_r.len() <= kb_q.len(),
                    rules_ok(tbl, rules@),
                    fired <= cap,
                    fired_r < cap,
                    fired_r <= fired,
                    (fired == fired_r) == (kb@.len() == kb_r.len()),
                    rows_before == t_r.rows@.len(),
                    kb_before == kb_r.len(),
                    i < rules@.len(),
                    *rule == rules@[i as int],
                    ms == run_upto(&t_q, kb_q, &rule.plan, rule.plan.disjuncts@.len() as int),
                    found@.len() == ms.len(),
                    forall|x: int| 0 <= x < found@.len() ==> (#[trigger] found@[x]).regs@ == ms[x].1.0,
                    forall|x: int| 0 <= x < ms.len() ==> regs_ok(&t_q, (#[trigger] ms[x]).1.0) && ms[x].1.0.len() == rule.plan.n_regs,
                    q <= found@.len(),
                    idem == (t_in.rows@.len() < u32::MAX && fixed(&t_in, kb_in, rules@) && budget(max_steps) > 0),
                    idem ==> (*tbl == t_in && kb@ == kb_in && fired == 0 && t_r == t_in && kb_r == kb_in && t_q == t_in && kb_q == kb_in),
                    fired <= kb@.len() - kb_in.len(),
                    single_conclusions(rules@) ==> fired == kb@.len() - kb_in.len(),
                    kb@.len() > kb_in.len() ==> fired > 0,
                    forall|k: int| kb_in.len() <= k < kb@.len() ==> #[trigger] derived_fact(tbl, kb@, rules@, k),
                    log_in == old(log)@,
                    log@.len() == log_in.len() + fired,
                    log@.take(log_in.len() as int) == log_in,
                    replays(kb_in, log@.skip(log_in.len() as int), kbs),
                    kbs.last() == kb@,
                    *tbl == t_r && kb@ == kb_r ==> forall|i2: int| 0 <= i2 < i ==> rule_fixed(&t_r, kb_r, #[trigger] rules@[i2]),
                    *tbl == t_r && kb@ == kb_r ==> forall|x: int, j: int|
                        0 <= x < q && 0 <= j < rule.asserts@.len() ==> build_fault(#[trigger] rule.asserts@[j], ms[x].1.0) is None
                            && exists|id: u32| kb_r.contains(id) && denotes(&t_r, id, rule.asserts@[j], #[trigger] ms[x].1.0),
                decreases found@.len() - q,
            {
                if fired >= cap {
                    proof {
                        lemma_kb_len(tbl, kb@);
                        assert(replays(kb_in, log@.skip(log_in.len() as int), kbs) && kbs.last() == kb@);
                    }
                    return Err(SaturateError::StepLimit(limit_message(cap)));
                }
                let ghost t_f = *tbl;
                let ghost kb_f = kb@;
                let kb_len_f = kb.len();
                proof {
                    assert(rule_ok(tbl, rules@[i as int]));
                    lemma_regs_ok_grown(&t_q, tbl, ms[q as int].1.0);
                }
                proof {
                    if idem {
                        assert(rule_fixed(&t_in, kb_in, rules@[i as int]));
                        assert(found@[q as int].regs@ == ms[q as int].1.0);
                        let regs = ms[q as int].1.0;
                        let ids = Seq::new(
                            rule.asserts@.len(),
                            |j: int| choose|id: u32| kb_in.contains(id) && denotes(&t_in, id, rule.asserts@[j], regs),
                        );
                        assert forall|j: int| 0 <= j < rule.asserts@.len() implies kb@.contains(#[trigger] ids[j])
                            && denotes(tbl, ids[j], rule.asserts@[j], found@[q as int].regs@) by {
                            assert(ms[q as int] == run_upto(&t_in, kb_in, &rule.plan, rule.plan.disjuncts@.len() as int)[q as int]);
                            assert(build_fault(rule.asserts@[j], regs) is None);
                            assert(exists|id: u32| kb_in.contains(id) && denotes(&t_in, id, rule.asserts@[j], regs));
                        }
                        assert(held_witness(tbl, kb@, rule.asserts@, found@[q as int].regs@, ids));
                    }
                }
                proof {
                    if single_conclusions(rules@) {
                        assert(rules@[i as int].asserts@.len() <= 1);
                    }
                }
                let ghost log_f = log@;
                let res = fire(tbl, kb, &rule.asserts, &found[q]);
                proof {
                    crate::firing::lemma_grown_trans(&t_in, &t_f, tbl);
                    crate::firing::lemma_grown_trans(&t_r, &t_f, tbl);
                    crate::firing::lemma_grown_trans(&t_q, &t_f, tbl);
                    assert forall|i2: int| 0 <= i2 < rules@.len() implies rule_ok(tbl, #[trigger] rules@[i2]) by {
                        lemma_rule_ok_grown(&t_f, tbl, rules@[i2]);
                    }
                    lemma_prefix_trans(kb_in, kb_f, kb@);
                    lemma_prefix_trans(kb_r, kb_f, kb@);
                    lemma_prefix_trans(kb_q, kb_f, kb@);
                }
                match res {
                    Err(e) => {
                        proof {
                            assert forall|k: int| kb_in.len() <= k < kb@.len() implies #[trigger] derived_fact(tbl, kb@, rules@, k) by {
                                assert(derived_fact(&t_f, kb_f, rules@, k));
                                lemma_derived_kept(&t_f, kb_f, tbl, kb@, rules@, k);
                            }
                        }
                        proof {
                            lemma_same_len_prefix(kb_f, kb@);
                            assert(replays(kb_in, log@.skip(log_in.len() as int), kbs) && kbs.last() == kb@);
                            if !(e is Overflow) {
                                let j = choose|j: int|
                                    0 <= j < rule.asserts@.len() && (forall|j2: int| 0 <= j2 < j ==> build_fault(#[trigger] rule.asserts@[j2], found@[q as int].regs@) is None)
                                        && #[trigger] crate::firing::built(tbl, rule.asserts@[j], found@[q as int].regs@, Err(e));
                                assert(found@[q as int].regs@ == ms[q as int].1.0);
                                assert(kb@.take(kb_q.len() as int) == kb_q);
                                assert(build_fault(rule.asserts@[j], found@[q as int].regs@) is Some);
                                assert(faulted_by(tbl, kb@, rules@, e, t_q, kb_q.len() as int, i as int, q as int, j));
                            }
                        }
                        return Err(SaturateError::Fire(e));
                    },
                    Ok(fr) => {
                        let ghost frg = fr;
                        if kb.len() > kb_len_f {
                            match fr {
                                Some(f) => {
                                    log.push(f);
                                    proof {
                                        lemma_log_step(kb_in, log_in, log_f, log@, kbs, kb@, frg->Some_0);
                                        kbs = kbs.push(kb@);
                                    }
                                },
                                None => {},
                            }
                            fired = fired + 1;
                        } else {
                            proof {
                                lemma_same_len_prefix(kb_f, kb@);
                            }
                        }
                        proof {
                            assert forall|k: int| kb_in.len() <= k < kb@.len() implies #[trigger] derived_fact(tbl, kb@, rules@, k) by {
                                if k < kb_f.len() {
                                    assert(derived_fact(&t_f, kb_f, rules@, k));
                                    lemma_derived_kept(&t_f, kb_f, tbl, kb@, rules@, k);
                                } else {
                                    match frg {
                                        Some(f) => {
                                            assert(written(kb_f, f.derived@, kb@));
                                            assert(f.derived@.contains(kb@[k]));
                                            let x = choose|x: int| 0 <= x < f.derived@.len() && f.derived@[x] == kb@[k];
                                            assert(denotes(tbl, f.derived@[x], rule.asserts@[x], found@[q as int].regs@));
                                            assert(kb@.take(kb_q.len() as int) == kb_q);
                                            assert(made_by(tbl, kb@, rules@, k, t_q, kb_q.len() as int, i as int, q as int, x));
                                        },
                                        None => {
                                            assert(kb@ == kb_f);
                                        },
                                    }
                                }
                            }
                        }
                        proof {
                            if tbl.rows@.len() == t_r.rows@.len() {
                                assert(t_f.rows@.len() == t_r.rows@.len());
                                assert(t_f == t_r);
                                assert(*tbl == t_f);
                            }
                            if kb@.len() == kb_r.len() {
                                lemma_same_len_prefix(kb_r, kb@);
                                assert(kb_f.len() == kb_r.len());
                                lemma_prefix_mid(kb_r, kb_f, kb@);
                                lemma_same_len_prefix(kb_r, kb_f);
                            }
                            if *tbl == t_r && kb@ == kb_r {
                                assert(t_q.rows@.len() == t_r.rows@.len());
                                assert(kb_q.len() == kb_r.len());
                                assert forall|j: int| 0 <= j < rule.asserts@.len() implies build_fault(#[trigger] rule.asserts@[j], ms[q as int].1.0) is None
                                    && exists|id: u32| kb_r.contains(id) && denotes(&t_r, id, rule.asserts@[j], ms[q as int].1.0) by {
                                    match frg {
                                        Some(f) => {
                                            assert(found@[q as int].regs@ == ms[q as int].1.0);
                                            assert(denotes(tbl, f.derived@[j], rule.asserts@[j], found@[q as int].regs@));
                                            assert(written(kb_f, f.derived@, kb@));
                                            assert(kb@.contains(f.derived@[j]));
                                        },
                                        None => {
                                            assert(rule.asserts@.len() == 0);
                                        },
                                    }
                                }
                            }
                        }
                    },
                }
                q = q + 1;
            }
            proof {
                if *tbl == t_r && kb@ == kb_r {
                    assert(t_q == t_r);
                    assert(kb_q == kb_r);
                    assert(rule_fixed(&t_r, kb_r, rules@[i as int]));
                }
            }
            i = i + 1;
        }
        if tbl.rows.len() == rows_before && kb.len() == kb_before {
            proof {
                lemma_same_len_prefix(kb_r, kb@);
                assert(*tbl == t_r);
                assert(fixed(&t_r, kb_r, rules@));
                assert(replays(kb_in, log@.skip(log_in.len() as int), kbs) && kbs.last() == kb@);
            }
            return Ok(fired);
        }
    }
}

} // verus!
