use ein_infer::alive_set::{AssertExpr, AssertSite, Breach, BreachKind, Registry, RuleBreach, Universe};
use ein_infer::events::{sexpr, sexpr_facts, sexpr_value};
use ein_infer::facts::{Arg, FactTable, Row};

// Symbols: p q A B T not Ghost r mk
const P: u32 = 0;
const Q: u32 = 1;
const A: u32 = 2;
const B: u32 = 3;
const T: u32 = 4;
const NOT: u32 = 5;
const GHOST: u32 = 6;
const R: u32 = 7;
const MK: u32 = 8;

fn table() -> FactTable {
    let names = ["p", "q", "A", "B", "T", "not", "Ghost", "r", "mk"].iter().map(|s| s.to_string()).collect();
    let rows = vec![
        Row { rel: P, args: vec![Arg::Sym(A)] },
        Row { rel: Q, args: vec![Arg::Fact(0), Arg::Int(-7)] },
        Row { rel: R, args: vec![Arg::Sym(GHOST)] },
        Row { rel: P, args: vec![Arg::Sym(B)] },
        Row { rel: Q, args: vec![] },
    ];
    FactTable { names, rows }
}

fn registry() -> Registry {
    Registry { relations: vec![(P, vec![T]), (Q, vec![T, T])], assertable: vec![], kernel: vec![NOT] }
}

#[test]
fn facts_render_as_s_expressions() {
    let t = table();
    assert_eq!(sexpr(&t, 1), "(q (p A) -7)");
    assert_eq!(sexpr(&t, 4), "(q)");
    assert_eq!(sexpr_value(&t, Arg::Fact(0)), "(p A)");
    assert_eq!(sexpr_value(&t, Arg::Sym(GHOST)), "Ghost");
    assert_eq!(sexpr_value(&t, Arg::Int(12)), "12");
    assert_eq!(sexpr_facts(&t, &[3, 0]), vec!["(p B)", "(p A)"]);
}

#[test]
fn the_baseline_is_what_the_loaded_facts_reach() {
    let t = table();
    let u = Universe::of(&registry(), &t, &vec![0, 1]);
    // objects: p q A T not; relations: p q not.
    assert_eq!(u.len(), (5, 3));
    assert!(!u.is_empty());
    assert!(!u.interned_late(R));
    assert!(u.interned_late(9));
}

#[test]
fn a_loaded_kb_breaches_nothing_and_later_facts_are_caught() {
    let t = table();
    let u = Universe::of(&registry(), &t, &vec![0, 1]);
    let mut out = Vec::new();
    u.breaches(&t, &vec![0, 1], 0, &mut out);
    assert!(out.is_empty());
    u.breaches(&t, &vec![0, 1, 2, 3], 2, &mut out);
    assert_eq!(
        out,
        vec![
            Breach { fact: 2, name: R, kind: BreachKind::NewRelation },
            Breach { fact: 2, name: GHOST, kind: BreachKind::NewObject },
            Breach { fact: 3, name: B, kind: BreachKind::NewObject },
        ]
    );
    assert_eq!(out[0].render(&t), "new-relation: `r` in (r Ghost)");
    assert_eq!(out[2].render(&t), "new-object: `B` in (p B)");
}

#[test]
fn a_rule_assert_that_names_something_new_is_a_rule_breach() {
    let t = table();
    let u = Universe::of(&registry(), &t, &vec![0, 1]);
    let form = |head: &str, args: Vec<AssertExpr>| AssertExpr::Form { head: Some(head.to_string()), args };
    let atom = |s: &str| AssertExpr::Atom(s.to_string());
    let expr = form(
        "and",
        vec![
            form("p", vec![atom("B")]),
            form("r", vec![atom("A"), atom("B"), AssertExpr::Other]),
            AssertExpr::KwPair(Box::new(atom("9"))),
        ],
    );
    let rules = vec![AssertSite { rule: MK, assert: Some(expr) }];
    let hrules = vec![AssertSite { rule: MK, assert: None }];
    let obligations = vec![AssertSite { rule: MK, assert: Some(atom("Ghost")) }];
    let structural = vec!["and".to_string(), "not".to_string()];
    let found = u.rule_breaches(&t, &rules, &hrules, &obligations, &structural);
    assert_eq!(
        found,
        vec![
            RuleBreach { rule: MK, which: "rule", name: B, kind: BreachKind::NewObject },
            RuleBreach { rule: MK, which: "rule", name: R, kind: BreachKind::NewRelation },
            RuleBreach { rule: MK, which: "obligation", name: GHOST, kind: BreachKind::NewRelation },
        ]
    );
    assert_eq!(found[0].render(&t), "new-object: `B`, asserted by rule `mk`");
}

#[test]
fn a_table_is_well_formed_only_bottom_up() {
    assert!(table().is_wf());
    let mut t = table();
    t.rows[0].args.push(Arg::Fact(3));
    assert!(!t.is_wf(), "a nested fact interned after its holder");
    let mut t = table();
    t.rows[1].rel = 42;
    assert!(!t.is_wf(), "an unknown relation name");
}
