use ein_infer::commitment::{dead, kills, Kind};
use ein_infer::contradiction::{FactBase, Shape};
use ein_infer::explain::{Justification, PrimaryCore, ProofStore, Recorded};

fn given() -> Option<Recorded> {
    Some(Recorded { given: true, justifications: vec![] })
}

fn derived(ands: &[&[u32]]) -> Option<Recorded> {
    Some(Recorded {
        given: false,
        justifications: ands
            .iter()
            .map(|a| Justification { by_rule: true, premises: a.to_vec() })
            .collect(),
    })
}

fn no_cores(n: usize) -> Vec<PrimaryCore> {
    (0..n).map(|_| PrimaryCore { core: vec![], key: String::new() }).collect()
}

/// 0 A given, 1 B given, 2 P from {A, B} or {B}, 3 (not P) given.
fn world(p_held: bool) -> (ProofStore, FactBase) {
    let st = ProofStore { facts: vec![given(), given(), derived(&[&[0, 1], &[1]]), given()] };
    let kb = FactBase {
        shapes: vec![Shape::Positive, Shape::Positive, Shape::Positive, Shape::Not(Some(2))],
        held: vec![true, true, p_held, true],
        falses: vec![],
        negations: vec![3],
    };
    (st, kb)
}

#[test]
fn a_dead_entering_has_the_smallest_core() {
    let (st, kb) = world(true);
    assert_eq!(dead(&st, &kb, &no_cores(4)), Some(vec![1]));
}

#[test]
fn a_consistent_entering_has_no_core() {
    let (st, kb) = world(false);
    assert_eq!(dead(&st, &kb, &no_cores(4)), None);
}

#[test]
fn fail_fast_stops_at_the_killing_firing_only() {
    let (_, kb) = world(true);
    assert!(kills(&kb, false, &[0, 2]), "P now meets its (not P)");
    assert!(!kills(&kb, true, &[2]), "a redundant firing wrote nothing");
    assert!(!kills(&kb, false, &[0, 1]));
    assert!(!kills(&kb, false, &[]));
    let (_, alive) = world(false);
    assert!(kills(&alive, false, &[3]) == false, "(not P) alone pairs with nothing held");
}

#[test]
fn a_kind_names_itself() {
    assert_eq!(Kind::Alive.as_str(), "alive");
    assert_eq!(Kind::DeadPre.as_str(), "dead-pre");
    assert_eq!(Kind::DeadPost.as_str(), "dead-post");
}

use ein_infer::commitment::try_commitment_set;
use ein_infer::facts::{Arg, FactTable, Row};
use ein_infer::match_::{Plan, Slot, Step};
use ein_infer::saturator::Rule;

/// Names: 0 p, 1 q, 2 not, 3 false, 4 a. Rows: 0 `(p a)`, 1 `(q a)`,
/// 2 `(not (q a))`, 3 `(false)`. One rule: `(p ?x) → (q ?x)`.
fn program() -> (FactTable, Vec<Rule>) {
    let t = FactTable {
        names: ["p", "q", "not", "false", "a"].iter().map(|s| s.to_string()).collect(),
        rows: vec![
            Row { rel: 0, args: vec![Arg::Sym(4)] },
            Row { rel: 1, args: vec![Arg::Sym(4)] },
            Row { rel: 2, args: vec![Arg::Fact(1)] },
            Row { rel: 3, args: vec![] },
        ],
    };
    let rule = Rule {
        plan: Plan {
            seed: vec![],
            disjuncts: vec![vec![Step::Rel { rel: 0, slots: vec![Slot::Reg(0)] }]],
            n_regs: 1,
        },
        asserts: vec![Slot::Nested { rel: 1, slots: vec![Slot::Reg(0)] }],
    };
    (t, vec![rule])
}

#[test]
fn a_hypothesis_that_clashes_with_the_root_dies_before_saturation() {
    let (mut t, rules) = program();
    let root = vec![0, 1];
    let r = try_commitment_set(&mut t, &root, &rules, &[2], None, 3, 2).unwrap();
    assert_eq!(r.kind, Kind::DeadPre);
    assert_eq!(r.kb, vec![0, 1, 2]);
    assert_eq!(r.firings.len(), 0);
    assert_eq!(r.commitment, vec![2]);
    assert_eq!(r.hypothesis_facts, vec![2]);
    assert_eq!(root, vec![0, 1], "the root is only read");
}

#[test]
fn a_false_hypothesis_is_dead_at_once() {
    let (mut t, rules) = program();
    let r = try_commitment_set(&mut t, &vec![0], &rules, &[3], None, 3, 2).unwrap();
    assert_eq!(r.kind, Kind::DeadPre);
    assert_eq!(r.kb, vec![0, 3]);
}

#[test]
fn saturation_can_kill_a_fork() {
    let (mut t, rules) = program();
    let r = try_commitment_set(&mut t, &vec![0], &rules, &[2], None, 3, 2).unwrap();
    assert_eq!(r.kind, Kind::DeadPost);
    assert_eq!(r.kb, vec![0, 2, 1], "(q a) derived after the hypothesis");
    assert_eq!(r.firings.len(), 1);
    assert_eq!(r.firings[0].derived, vec![1]);
}

#[test]
fn a_consistent_fork_stays_alive() {
    let (mut t, rules) = program();
    let r = try_commitment_set(&mut t, &vec![0], &rules, &[1, 1], None, 3, 2).unwrap();
    assert_eq!(r.kind, Kind::Alive);
    assert_eq!(r.kb, vec![0, 1], "a repeated hypothesis is written once");
    assert_eq!(r.firings.len(), 0);
    assert_eq!(r.hypothesis_facts, vec![1, 1]);
}
