use ein_infer::facts::{Arg, FactTable, Row};
use ein_infer::lookahead::{guards_pass_with, unjudgeable};
use ein_infer::match_::{Matcher, NafGuard, Slot, Step};
use ein_infer::contradiction::{FactBase, Shape};
use ein_infer::lookahead::{dies_immediately, is_contradiction, Probe};

fn probe(judgeable: bool, guards_pass: bool, conclusions: Vec<Option<u32>>) -> Probe {
    Probe { judgeable, guards_pass, conclusions }
}

/// `self-block: (cand ?x) ∧ (absent (cand ?x)) ⇒ (false)`. Seeded with
/// `h = (cand A)`, the guard finds `h` itself in the world with `h`, so it
/// fails there and nothing is concluded.
#[test]
fn the_naf_world_includes_the_candidate() {
    // 0 (cand A), 1 (false)
    let kb = FactBase {
        shapes: vec![Shape::Positive, Shape::False],
        held: vec![false, false],
        falses: vec![],
        negations: vec![],
    };
    assert!(!dies_immediately(&kb, 0, &[probe(true, false, vec![Some(1)])]));
}

/// A guard holding a nested absent cannot be judged cheaply, so its
/// disjunct is skipped even though both cheap checks would pass it.
#[test]
fn a_nested_absent_is_not_judged_at_all() {
    // 0 (s B), 1 (p B), 2 (q B), 3 (false)
    let kb = FactBase {
        shapes: vec![Shape::Positive, Shape::Positive, Shape::Positive, Shape::False],
        held: vec![false, true, true, false],
        falses: vec![],
        negations: vec![],
    };
    assert!(!dies_immediately(&kb, 0, &[probe(false, true, vec![Some(3)])]));
}

/// `blow-up: (cand ?x) ∧ (bad ?x) ⇒ (false)`, with `(bad A)` held: seeding
/// `(cand A)` matches and concludes `(false)`; seeding `(cand B)` finds no
/// match at all.
#[test]
fn a_positive_rule_still_kills() {
    // 0 (cand A), 1 (bad A), 2 (false), 3 (cand B)
    let kb = FactBase {
        shapes: vec![Shape::Positive, Shape::Positive, Shape::False, Shape::Positive],
        held: vec![false, true, false, false],
        falses: vec![],
        negations: vec![],
    };
    assert!(dies_immediately(&kb, 0, &[probe(true, true, vec![Some(2)])]));
    assert!(!dies_immediately(&kb, 3, &[]));
}

#[test]
fn a_malformed_conclusion_never_kills() {
    let kb = FactBase { shapes: vec![Shape::False], held: vec![false], falses: vec![], negations: vec![] };
    assert!(!dies_immediately(&kb, 0, &[probe(true, true, vec![None])]));
    assert!(dies_immediately(&kb, 0, &[probe(true, true, vec![None, Some(0)])]));
}

#[test]
fn the_hypothetical_world_holds_the_candidate_but_the_kb_does_not() {
    // 0 (p a) not held, 1 (not (p a)), 2 (p b) held, 3 (not (p b)),
    // 4 (p c) not held, 5 (not (p c)) held, 6 (not (p z)) with z no fact
    let kb = FactBase {
        shapes: vec![
            Shape::Positive,
            Shape::Not(Some(0)),
            Shape::Positive,
            Shape::Not(Some(2)),
            Shape::Positive,
            Shape::Not(Some(4)),
            Shape::Not(None),
        ],
        held: vec![false, false, true, false, false, true, false],
        falses: vec![],
        negations: vec![5],
    };
    assert!(is_contradiction(&kb, 1, 0), "(not h) against h");
    assert!(!is_contradiction(&kb, 1, 2), "(not (p a)) with (p a) absent");
    assert!(is_contradiction(&kb, 3, 0), "(not (p b)) against a held (p b)");
    assert!(is_contradiction(&kb, 4, 0), "(p c) against a held (not (p c))");
    assert!(!is_contradiction(&kb, 2, 0), "nothing negates (p b)");
    assert!(!is_contradiction(&kb, 6, 6));
}

/// Names: 0 a, 1 block, 2 free, 3 taken. Held: `(a free)`, `(a taken)`,
/// `(block taken)`; interned but not held: `(block free)`. The guard is
/// `(absent (block ?x))` with `?x` projected from the parent.
#[test]
fn a_guard_is_judged_in_the_kb_with_the_candidate_added() {
    let t = FactTable {
        names: ["a", "block", "free", "taken"].iter().map(|s| s.to_string()).collect(),
        rows: vec![
            Row { rel: 0, args: vec![Arg::Sym(2)] },
            Row { rel: 0, args: vec![Arg::Sym(3)] },
            Row { rel: 1, args: vec![Arg::Sym(3)] },
            Row { rel: 1, args: vec![Arg::Sym(2)] },
        ],
    };
    let kb = vec![0, 1, 2];
    let guards = vec![NafGuard {
        sub: vec![Step::Rel { rel: 1, slots: vec![Slot::Reg(0)] }],
        n_regs: 1,
        scope_of: vec![Some(0)],
    }];
    assert!(!unjudgeable(&guards));
    let mut m = Matcher::new();
    let free = vec![Some(Arg::Sym(2))];
    let taken = vec![Some(Arg::Sym(3))];
    assert!(!guards_pass_with(&mut m, &t, &kb, &guards, &taken, 0), "blocked in the KB itself");
    assert!(!guards_pass_with(&mut m, &t, &kb, &guards, &free, 3), "the candidate blocks it");
    assert!(guards_pass_with(&mut m, &t, &kb, &guards, &free, 0), "nothing blocks free");
    let nested = vec![NafGuard { sub: vec![Step::Absent { sub: vec![] }], n_regs: 0, scope_of: vec![] }];
    assert!(unjudgeable(&nested));
}
