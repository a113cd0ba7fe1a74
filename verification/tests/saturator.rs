use ein_infer::facts::{Arg, FactTable, Row};
use ein_infer::firing::Firing;
use ein_infer::match_::{Plan, Slot, Step};
use ein_infer::saturator::{saturate, Rule, SaturateError};

/// Names: 0 edge, 1 path, 2 n1, 3 n2, 4 n3. Held: `(edge n1 n2)`,
/// `(edge n2 n3)`. Rules: `edge(a,b) → path(a,b)` and
/// `path(a,b) ∧ edge(b,c) → path(a,c)`.
fn world() -> (FactTable, Vec<u32>, Vec<Rule>) {
    let t = FactTable {
        names: ["edge", "path", "n1", "n2", "n3"].iter().map(|s| s.to_string()).collect(),
        rows: vec![
            Row { rel: 0, args: vec![Arg::Sym(2), Arg::Sym(3)] },
            Row { rel: 0, args: vec![Arg::Sym(3), Arg::Sym(4)] },
        ],
    };
    let base = Rule {
        plan: Plan {
            seed: vec![],
            disjuncts: vec![vec![Step::Rel { rel: 0, slots: vec![Slot::Reg(0), Slot::Reg(1)] }]],
            n_regs: 2,
        },
        asserts: vec![Slot::Nested { rel: 1, slots: vec![Slot::Reg(0), Slot::Reg(1)] }],
    };
    let step = Rule {
        plan: Plan {
            seed: vec![],
            disjuncts: vec![vec![
                Step::Rel { rel: 1, slots: vec![Slot::Reg(0), Slot::Reg(1)] },
                Step::Rel { rel: 0, slots: vec![Slot::Reg(1), Slot::Reg(2)] },
            ]],
            n_regs: 3,
        },
        asserts: vec![Slot::Nested { rel: 1, slots: vec![Slot::Reg(0), Slot::Reg(2)] }],
    };
    (t, vec![0, 1], vec![base, step])
}

#[test]
fn transitive_closure_reaches_its_fixed_point() {
    let (mut t, mut kb, rules) = world();
    let mut log: Vec<Firing> = Vec::new();
    let n = saturate(&mut t, &mut kb, &rules, None, &mut log).unwrap();
    assert_eq!(n, 3, "path(n1,n2), path(n2,n3), path(n1,n3)");
    assert_eq!(log.len(), 3, "one record per productive firing");
    let written: Vec<u32> = log.iter().flat_map(|f| f.derived.clone()).collect();
    assert_eq!(written, kb[2..].to_vec(), "the records replay the KB's growth");
    assert_eq!(kb.len(), 5);
    let paths: Vec<Vec<Arg>> = kb[2..].iter().map(|&f| t.rows[f as usize].args.clone()).collect();
    assert!(paths.contains(&vec![Arg::Sym(2), Arg::Sym(4)]));
    // A second run finds the fixed point at once.
    assert_eq!(saturate(&mut t, &mut kb, &rules, None, &mut log), Ok(0));
    assert_eq!(log.len(), 3);
    assert_eq!(kb.len(), 5);
}

#[test]
fn the_step_budget_names_itself() {
    let (mut t, mut kb, rules) = world();
    assert_eq!(
        saturate(&mut t, &mut kb, &rules, Some(2), &mut Vec::new()),
        Err(SaturateError::StepLimit("saturator hit max_steps=2 without reaching fixed point".to_string()))
    );
}

/// `(edge ?a ?b) ∧ (edge ?b ?c) → (edge ?a ?c)` over a four-edge chain has
/// more than two productive firings before its fixed point; a budget of two
/// stops it with two facts written, and the error names the budget.
#[test]
fn the_step_limit_quotes_the_last_firing() {
    let mut t = FactTable {
        names: ["edge", "n1", "n2", "n3", "n4", "n5"].iter().map(|s| s.to_string()).collect(),
        rows: vec![
            Row { rel: 0, args: vec![Arg::Sym(1), Arg::Sym(2)] },
            Row { rel: 0, args: vec![Arg::Sym(2), Arg::Sym(3)] },
            Row { rel: 0, args: vec![Arg::Sym(3), Arg::Sym(4)] },
            Row { rel: 0, args: vec![Arg::Sym(4), Arg::Sym(5)] },
        ],
    };
    let mut kb = vec![0, 1, 2, 3];
    let walk = Rule {
        plan: Plan {
            seed: vec![],
            disjuncts: vec![vec![
                Step::Rel { rel: 0, slots: vec![Slot::Reg(0), Slot::Reg(1)] },
                Step::Rel { rel: 0, slots: vec![Slot::Reg(1), Slot::Reg(2)] },
            ]],
            n_regs: 3,
        },
        asserts: vec![Slot::Nested { rel: 0, slots: vec![Slot::Reg(0), Slot::Reg(2)] }],
    };
    let mut log: Vec<Firing> = Vec::new();
    let err = saturate(&mut t, &mut kb, &vec![walk], Some(2), &mut log).expect_err("the budget runs out");
    let msg = match err {
        SaturateError::StepLimit(m) => m,
        other => panic!("not the budget: {other:?}"),
    };
    assert!(msg.contains("max_steps=2"), "{msg}");
    assert!(msg.contains("without reaching fixed point"), "{msg}");
    assert_eq!(kb.len(), 6, "exactly two firings were made");
    assert_eq!(log.len(), 2, "each firing was handed over");
    assert!(log.last().is_some(), "the last firing is at hand");
}

/// A conclusion naming a variable the match never binds stops the run with
/// that register, nothing written.
#[test]
fn an_unbound_conclusion_variable_stops_the_run() {
    let (mut t, mut kb, _) = world();
    let bad = Rule {
        plan: Plan {
            seed: vec![],
            disjuncts: vec![vec![Step::Rel { rel: 0, slots: vec![Slot::Reg(0), Slot::Reg(1)] }]],
            n_regs: 3,
        },
        asserts: vec![Slot::Nested { rel: 1, slots: vec![Slot::Reg(0), Slot::Reg(2)] }],
    };
    let mut log: Vec<Firing> = Vec::new();
    assert_eq!(
        saturate(&mut t, &mut kb, &vec![bad], None, &mut log),
        Err(SaturateError::Fire(ein_infer::firing::FireError::UnboundVar(2)))
    );
    assert_eq!(kb, vec![0, 1]);
    assert!(log.is_empty());
}
