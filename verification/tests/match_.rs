use ein_infer::facts::{Arg, FactTable, Row};
use ein_infer::match_::{GuardArg, Matcher, NafGuard, Plan, Slot, Step};
use ein_infer::predicates::Pred;

/// Names: 0 a, 1 block, 2 free, 3 taken. Facts `(a free)`, `(a taken)`,
/// `(block taken)`, all held.
fn blocks() -> (FactTable, Vec<u32>) {
    let names = ["a", "block", "free", "taken"].iter().map(|s| s.to_string()).collect();
    let rows = vec![
        Row { rel: 0, args: vec![Arg::Sym(2)] },
        Row { rel: 0, args: vec![Arg::Sym(3)] },
        Row { rel: 1, args: vec![Arg::Sym(3)] },
    ];
    (FactTable { names, rows }, vec![0, 1, 2])
}

/// The `x` of each match of `(a ?x)` whose lifted `(absent (block ?x))`
/// guard, projected through `scope_of`, finds no match.
fn passing(scope_of: Vec<Option<u16>>) -> Vec<String> {
    let (t, kb) = blocks();
    let plan = Plan {
        seed: vec![],
        disjuncts: vec![vec![Step::Rel { rel: 0, slots: vec![Slot::Reg(0)] }]],
        n_regs: 1,
    };
    let guard = NafGuard { sub: vec![Step::Rel { rel: 1, slots: vec![Slot::Reg(0)] }], n_regs: 1, scope_of };
    let mut m = Matcher::new();
    let found = m.run(&t, &kb, &plan);
    found
        .iter()
        .filter(|f| !m.holds(&t, &kb, &guard, &f.regs))
        .map(|f| match f.regs[0] {
            Some(Arg::Sym(s)) => t.names[s as usize].clone(),
            other => panic!("?x is bound to a name, not {other:?}"),
        })
        .collect()
}

/// `(and (a ?x) (absent (block ?x)))` asks "is there no block for this
/// x?"; `(and (absent (block ?x)) (a ?x))` asks "is there no block at all?",
/// and with one block in the KB it fails for every x.
#[test]
fn a_lifted_guard_keeps_asking_its_own_question() {
    assert_eq!(passing(vec![Some(0)]), ["free"], "scope {{x}} — the query is about this x");
    assert_eq!(
        passing(vec![None]),
        Vec::<String>::new(),
        "empty scope — the query is about every block, and one exists"
    );
}

/// `(and (a ?x) (neq ?p ?q))` over `(a one)`: both guard arguments are
/// unbound, unbound equals unbound, so `neq` fails.
#[test]
fn two_unbound_guard_arguments_compare_equal() {
    let t = FactTable {
        names: ["a", "one"].iter().map(|s| s.to_string()).collect(),
        rows: vec![Row { rel: 0, args: vec![Arg::Sym(1)] }],
    };
    let kb = vec![0];
    let plan = Plan {
        seed: vec![],
        disjuncts: vec![vec![
            Step::Rel { rel: 0, slots: vec![Slot::Reg(0)] },
            Step::Guard { pred: Pred::Neq, a: GuardArg::Reg(1), b: GuardArg::Reg(2) },
        ]],
        n_regs: 3,
    };
    let n = Matcher::new().run(&t, &kb, &plan).len();
    assert_eq!(n, 0, "`neq` on two `None`s is false, so nothing matches");
}

/// `(and (edge ?a ?b) (edge ?b ?c))` over `(edge n1 n2)`, `(edge n2 n3)`:
/// seeding at each fact finds the one match twice, premises in plan order.
#[test]
fn a_seeded_match_reports_the_same_premise_order() {
    let t = FactTable {
        names: ["edge", "n1", "n2", "n3"].iter().map(|s| s.to_string()).collect(),
        rows: vec![
            Row { rel: 0, args: vec![Arg::Sym(1), Arg::Sym(2)] },
            Row { rel: 0, args: vec![Arg::Sym(2), Arg::Sym(3)] },
        ],
    };
    let kb = vec![0, 1];
    let plan = Plan {
        seed: vec![],
        disjuncts: vec![vec![
            Step::Rel { rel: 0, slots: vec![Slot::Reg(0), Slot::Reg(1)] },
            Step::Rel { rel: 0, slots: vec![Slot::Reg(1), Slot::Reg(2)] },
        ]],
        n_regs: 3,
    };
    let mut m = Matcher::new();
    let full: Vec<Vec<u32>> = m.run(&t, &kb, &plan).into_iter().map(|f| f.premises).collect();
    assert_eq!(full.len(), 1);
    let mut seeded: Vec<Vec<u32>> = Vec::new();
    for &fact in &kb {
        seeded.extend(m.run_seeded(&t, &kb, &plan, fact).into_iter().map(|f| f.premises));
    }
    assert_eq!(seeded.len(), 2, "each edge seeds the join at its own step");
    assert!(
        seeded.iter().all(|p| *p == full[0]),
        "a seeded match reordered its premises: {seeded:?} vs {:?}",
        full[0]
    );
}

/// The seed is bound first and trailed first; a nested pattern matches
/// only a fact of its relation; a constant slot filters.
#[test]
fn seeds_come_first_in_the_bind_order() {
    let t = FactTable {
        names: ["p", "not", "k", "v"].iter().map(|s| s.to_string()).collect(),
        rows: vec![
            Row { rel: 0, args: vec![Arg::Sym(2), Arg::Sym(3)] },
            Row { rel: 1, args: vec![Arg::Fact(0)] },
            Row { rel: 0, args: vec![Arg::Sym(3), Arg::Sym(3)] },
        ],
    };
    let kb = vec![0, 1, 2];
    let plan = Plan {
        seed: vec![Arg::Sym(2)],
        disjuncts: vec![vec![Step::Rel {
            rel: 1,
            slots: vec![Slot::Nested { rel: 0, slots: vec![Slot::Const(Arg::Sym(2)), Slot::Reg(1)] }],
        }]],
        n_regs: 2,
    };
    let found = Matcher::new().run(&t, &kb, &plan);
    assert_eq!(found.len(), 1);
    assert_eq!(found[0].trail, vec![0, 1]);
    assert_eq!(found[0].regs, vec![Some(Arg::Sym(2)), Some(Arg::Sym(3))]);
    assert_eq!(found[0].premises, vec![1]);
    assert_eq!(found[0].disjunct, 0);
}
