use ein_infer::contradiction::{FactBase, Shape};
use ein_infer::explain::{
    explain, recorded_fallback, smallest_contradiction_frontier, Explanation, ExplanationBudget,
    Justification, PrimaryCore, ProofStore, Recorded,
};

fn given() -> Option<Recorded> {
    Some(Recorded { given: true, justifications: vec![] })
}

fn derived(ands: &[&[u32]]) -> Option<Recorded> {
    Some(Recorded {
        given: false,
        justifications: ands
            .iter()
            .map(|a| Justification { by_rule: true, premises: a.to_vec() })
            .collect(),
    })
}

fn no_cores(n: usize) -> Vec<PrimaryCore> {
    (0..n).map(|_| PrimaryCore { core: vec![], key: String::new() }).collect()
}

/// A, B, C given; X from {A, B} or from {C}; Y and Z justify each other,
/// and Z also follows from A.
fn store() -> ProofStore {
    ProofStore {
        facts: vec![
            given(),                     // 0 A
            given(),                     // 1 B
            given(),                     // 2 C
            derived(&[&[0, 1], &[2]]),   // 3 X
            derived(&[&[5]]),            // 4 Y
            derived(&[&[4], &[0]]),      // 5 Z
            derived(&[&[7]]),            // 6 from a fact the KB does not hold
            None,                        // 7
            derived(&[&[], &[0]]),       // 8 a writeback
        ],
    }
}

#[test]
fn the_smaller_derivation_wins_whichever_was_recorded_first() {
    let st = store();
    let r = explain(&st, &[3], &ExplanationBudget::default(), &no_cores(9));
    assert_eq!(r.frontier, vec![2]);
    assert_eq!(r.target, Some(3));
    assert!(r.exhausted);
    assert_eq!(r.len(), 1);
    assert!(!r.is_empty());
}

#[test]
fn a_cycle_never_grounds_itself() {
    let st = store();
    let r = explain(&st, &[4], &ExplanationBudget::default(), &no_cores(9));
    assert_eq!(r.frontier, vec![0]);
    assert_eq!(r.target, Some(4));
    assert!(r.exhausted);
}

#[test]
fn a_dangling_premise_and_a_writeback_ground_out_empty() {
    let st = store();
    let r = explain(&st, &[6], &ExplanationBudget::default(), &no_cores(9));
    assert_eq!((r.frontier.clone(), r.target), (vec![], Some(6)));
    let r = explain(&st, &[8], &ExplanationBudget::default(), &no_cores(9));
    assert_eq!((r.frontier.clone(), r.target), (vec![], Some(8)));
}

#[test]
fn the_smallest_target_wins_and_ties_go_to_the_lower_rank() {
    let st = store();
    let r = explain(&st, &[3, 4], &ExplanationBudget::default(), &no_cores(9));
    assert_eq!((r.frontier.clone(), r.target), (vec![0], Some(4)));
    let r = explain(&st, &[4, 3], &ExplanationBudget::default(), &no_cores(9));
    assert_eq!((r.frontier.clone(), r.target), (vec![0], Some(4)));
}

#[test]
fn no_targets_is_the_empty_exhausted_answer() {
    let r = explain(&store(), &[], &ExplanationBudget::default(), &no_cores(9));
    assert_eq!(
        r,
        Explanation { frontier: vec![], target: None, exhausted: true, rounds: 0, facts_considered: 0 }
    );
}

#[test]
fn a_size_cap_can_leave_a_target_unexplained() {
    let st = ProofStore { facts: vec![given(), given(), derived(&[&[0, 1]])] };
    let budget = ExplanationBudget { max_env_size: Some(1), ..ExplanationBudget::default() };
    let r = explain(&st, &[2], &budget, &no_cores(3));
    assert_eq!(r.target, None);
    assert!(r.frontier.is_empty());
}

#[test]
fn a_closure_over_max_facts_falls_back_to_the_recorded_core() {
    let st = store();
    let budget = ExplanationBudget { max_facts: 0, ..ExplanationBudget::default() };
    let mut cores = no_cores(9);
    cores[3] = PrimaryCore { core: vec![1, 0, 1], key: "(A) (B)".to_string() };
    let r = explain(&st, &[3], &budget, &cores);
    assert_eq!(r.frontier, vec![0, 1]);
    assert_eq!(r.target, Some(3));
    assert!(!r.exhausted);
    assert_eq!(r.facts_considered, 4, "X and the three premises it reached");
}

#[test]
fn the_fallback_takes_the_smallest_core_then_the_least_key() {
    let cores = vec![
        PrimaryCore { core: vec![4, 3], key: "b".to_string() },
        PrimaryCore { core: vec![5], key: "z".to_string() },
        PrimaryCore { core: vec![6], key: "y".to_string() },
        PrimaryCore { core: vec![], key: "a".to_string() },
    ];
    let r = recorded_fallback(&[0, 1, 2, 3], &cores, 7, 11);
    assert_eq!((r.frontier.clone(), r.target), (vec![6], Some(2)));
    assert!(!r.exhausted);
    assert_eq!((r.rounds, r.facts_considered), (7, 11));
    let none = recorded_fallback(&[3], &cores, 0, 0);
    assert_eq!(none.target, None);
}

#[test]
fn the_default_budget() {
    let b = ExplanationBudget::default();
    assert_eq!(
        (b.max_environments, b.max_rounds, b.max_env_size, b.max_facts),
        (64, 64, None, 20_000)
    );
}

#[test]
fn the_smallest_contradiction_frontier_explains_a_detected_pair() {
    // facts: 0 A given, 1 B given, 2 P from {A, B} or {B}, 3 (not P) given
    let st = ProofStore {
        facts: vec![given(), given(), derived(&[&[0, 1], &[1]]), given()],
    };
    let kb = FactBase {
        shapes: vec![Shape::Positive, Shape::Positive, Shape::Positive, Shape::Not(Some(2))],
        held: vec![true, true, true, true],
        falses: vec![],
        negations: vec![3],
    };
    assert_eq!(smallest_contradiction_frontier(&st, &kb, None, &no_cores(4)), vec![1]);
    let consistent = FactBase { held: vec![true, true, false, true], ..kb };
    assert!(smallest_contradiction_frontier(&st, &consistent, None, &no_cores(4)).is_empty());
}

/// The closure of X is {X, A, B, C}: within four facts it is whole and
/// counted; within three it is cut short. A closure of given facts alone
/// is never cut short, whatever its size.
#[test]
fn the_closure_is_counted_and_cut_only_past_max_facts() {
    let st = store();
    let four = ExplanationBudget { max_facts: 4, ..ExplanationBudget::default() };
    let r = explain(&st, &[3], &four, &no_cores(9));
    assert_eq!(r.facts_considered, 4);
    assert!(r.exhausted);
    let three = ExplanationBudget { max_facts: 3, ..ExplanationBudget::default() };
    let r = explain(&st, &[3], &three, &no_cores(9));
    assert!(r.facts_considered > 3);
    assert!(!r.exhausted);
    let none = ExplanationBudget { max_facts: 0, ..ExplanationBudget::default() };
    let r = explain(&st, &[0, 1], &none, &no_cores(9));
    assert_eq!(r.facts_considered, 2);
    assert!(r.exhausted);
    assert_eq!(r.target, Some(0));
}
