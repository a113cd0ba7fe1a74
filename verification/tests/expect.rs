use ein_infer::expect::{
    check, first_unmatched, Actual, Answer, Expectation, Extent, Held, Listed, Model, Outcome, Provenance, Report,
    Verdict,
};

fn fact(relation: &str, rendered: &str) -> Listed {
    Listed { relation: relation.to_string(), rendered: rendered.to_string(), negated: false }
}

fn negative(rendered: &str) -> Listed {
    Listed { relation: "not".to_string(), rendered: rendered.to_string(), negated: true }
}

fn model(facts: Vec<Listed>) -> Model {
    Model { facts }
}

fn expecting(name: &str, models: Vec<Model>) -> Expectation {
    Expectation { contradiction: false, models, verdict_name: name.to_string() }
}

fn expecting_false() -> Expectation {
    Expectation { contradiction: true, models: Vec::new(), verdict_name: "Contradiction".to_string() }
}

fn held(rendered: &str, why: Option<Provenance>) -> Held {
    Held { rendered: rendered.to_string(), why }
}

fn actual(state: Vec<u32>, extents: Vec<(&str, Vec<Held>)>, negatives: Vec<&str>) -> Actual {
    let mut all: Vec<String> = Vec::new();
    let mut out: Vec<Extent> = Vec::new();
    for (relation, facts) in extents {
        for f in &facts {
            all.push(f.rendered.clone());
        }
        out.push(Extent { relation: relation.to_string(), facts });
    }
    for n in negatives {
        all.push(n.to_string());
    }
    Actual { state, all, extents: out, goal_rows: Vec::new() }
}

fn cells(row: &[(&str, &str)]) -> Vec<(String, String)> {
    row.iter().map(|(k, v)| (k.to_string(), v.to_string())).collect()
}

fn lines(r: &Report) -> Vec<&str> {
    r.lines.iter().map(|l| l.as_str()).collect()
}

#[test]
fn only_held_passes() {
    let held = Report { outcome: Outcome::Held, lines: Vec::new() };
    let unchecked = Report { outcome: Outcome::NotChecked, lines: vec!["x".to_string()] };
    let failed = Report { outcome: Outcome::Failed, lines: vec!["x".to_string()] };
    assert!(held.passed());
    assert!(!unchecked.passed());
    assert!(!failed.passed());
}

#[test]
fn an_aborted_run_fails_with_its_reason() {
    let e = expecting("Solution", vec![model(vec![])]);
    let r = check(&e, &Answer::Aborted { reason: "step limit".to_string() }, true);
    assert_eq!(r.outcome, Outcome::Failed);
    assert_eq!(lines(&r), vec!["expected Solution, but the run did not finish (step limit)"]);
}

#[test]
fn a_contradiction_holds_only_when_exhausted() {
    let e = expecting_false();
    let r = check(&e, &Answer::Verdict(Verdict::Contradiction), true);
    assert_eq!(r.outcome, Outcome::Held);
    assert!(r.lines.is_empty());
    let r = check(&e, &Answer::Verdict(Verdict::Contradiction), false);
    assert_eq!(r.outcome, Outcome::NotChecked);
    assert_eq!(
        lines(&r),
        vec![
            "Contradiction matches, but the search was not exhausted — k is a lower bound, so nothing here is \
             established. Either the run stopped at -n, or the frontier is still alive at --max-set-size."
        ]
    );
}

#[test]
fn expecting_false_and_finding_a_model_fails() {
    let e = expecting_false();
    let a = actual(vec![1], vec![], vec![]);
    let r = check(&e, &Answer::Verdict(Verdict::Solution(a)), true);
    assert_eq!(r.outcome, Outcome::Failed);
    assert_eq!(lines(&r), vec!["expected (false) — Contradiction — got Solution with 1 model"]);
    let both = vec![actual(vec![1], vec![], vec![]), actual(vec![2], vec![], vec![])];
    let r = check(&e, &Answer::Verdict(Verdict::Ambiguity(both)), false);
    assert_eq!(r.outcome, Outcome::Failed);
    assert_eq!(lines(&r), vec!["expected (false) — Contradiction — got Ambiguity with 2 models"]);
}

#[test]
fn a_contradiction_from_a_stopped_search_is_not_a_refutation() {
    let e = expecting("Solution", vec![model(vec![])]);
    let r = check(&e, &Answer::Verdict(Verdict::Contradiction), false);
    assert_eq!(r.outcome, Outcome::NotChecked);
    assert_eq!(
        lines(&r),
        vec![
            "expected Solution, got Contradiction — but the search was not exhausted, so k = 0 means \
             \"no model within the cap\" and not \"no model\"",
            "raise --max-set-size, or write `:expect (false)` if ⊥ really is the answer",
        ]
    );
    let r = check(&e, &Answer::Verdict(Verdict::Contradiction), true);
    assert_eq!(r.outcome, Outcome::Failed);
    assert_eq!(
        lines(&r),
        vec!["expected Solution, got Contradiction — write `:expect (false)` if that is the answer"]
    );
}

#[test]
fn a_count_mismatch_projects_each_model_through_the_goal() {
    let e = expecting("Solution", vec![model(vec![])]);
    let mut a = actual(vec![1], vec![], vec![]);
    a.goal_rows = vec![cells(&[("y", "2"), ("x", "1")]), cells(&[("b", "9")]), cells(&[("y", "2"), ("x", "1")])];
    let b = actual(vec![2], vec![], vec![]);
    let r = check(&e, &Answer::Verdict(Verdict::Ambiguity(vec![a, b])), true);
    assert_eq!(r.outcome, Outcome::Failed);
    assert_eq!(
        lines(&r),
        vec![
            "expected Solution with k = 1, got Ambiguity with k = 2",
            "  model 1 of 2: ?b=9; ?x=1 ?y=2",
            "  model 2 of 2: the :goal matches nothing in it",
        ]
    );
}

#[test]
fn too_few_models_from_a_stopped_search_is_not_checked() {
    let e = expecting("Ambiguity", vec![model(vec![]), model(vec![])]);
    let a = actual(vec![1], vec![], vec![]);
    let r = check(&e, &Answer::Verdict(Verdict::Solution(a)), false);
    assert_eq!(r.outcome, Outcome::NotChecked);
    assert_eq!(r.lines.len(), 3);
    assert_eq!(r.lines[0], "expected Ambiguity with k = 2, got Solution with k = 1");
    assert_eq!(r.lines[1], "  model 1 of 1: the :goal matches nothing in it");
    assert!(r.lines[2].starts_with("…and the search was not exhausted"));
    let a = actual(vec![1], vec![], vec![]);
    let r = check(&e, &Answer::Verdict(Verdict::Solution(a)), true);
    assert_eq!(r.outcome, Outcome::Failed);
    assert_eq!(r.lines.len(), 2);
}

#[test]
fn two_branches_with_one_state_are_one_model() {
    let e = expecting("Solution", vec![model(vec![fact("r", "(r a)")])]);
    let a = actual(vec![4, 7], vec![("r", vec![held("(r a)", None)])], vec![]);
    let b = actual(vec![4, 7], vec![("r", vec![held("(r a)", None)])], vec![]);
    let r = check(&e, &Answer::Verdict(Verdict::Ambiguity(vec![a, b])), true);
    assert_eq!(r.outcome, Outcome::Held);
    assert!(r.passed());
}

#[test]
fn a_surplus_fact_is_reported_with_the_rule_that_put_it_there() {
    let e = expecting("Solution", vec![model(vec![fact("pet-loc", "(pet-loc Fox 1)")])]);
    let why = Provenance::Rule {
        rule: Some("place".to_string()),
        premises: vec!["(pet Dog)".to_string(), "(house 2)".to_string()],
    };
    let a = actual(
        vec![1],
        vec![("pet-loc", vec![held("(pet-loc Fox 1)", None), held("(pet-loc Dog 2)", Some(why))])],
        vec![],
    );
    let r = check(&e, &Answer::Verdict(Verdict::Solution(a)), true);
    assert_eq!(r.outcome, Outcome::Failed);
    assert_eq!(
        lines(&r),
        vec![
            "pet-loc: the model also has (pet-loc Dog 2), which the expectation does not list (naming a \
             relation closes it)",
            "  …(pet-loc Dog 2) is derived by place from (pet Dog) (house 2)",
        ]
    );
}

#[test]
fn missing_facts_then_surplus_then_absent_negatives() {
    let e = expecting(
        "Solution",
        vec![model(vec![
            negative("(not (q b))"),
            fact("r", "(r c)"),
            fact("r", "(r a)"),
            negative("(not (q a))"),
        ])],
    );
    let a = actual(
        vec![1],
        vec![("r", vec![held("(r z)", Some(Provenance::Hypothesis(Some(3)))), held("(r a)", None)])],
        vec!["(not (q a))"],
    );
    let r = check(&e, &Answer::Verdict(Verdict::Solution(a)), true);
    assert_eq!(r.outcome, Outcome::Failed);
    assert_eq!(
        lines(&r),
        vec![
            "r: expected (r c), and the model has no such fact",
            "r: the model also has (r z), which the expectation does not list (naming a relation closes it)",
            "  …(r z) is hypothesised in branch 3",
            "expected (not (q b)), and the model does not carry it",
        ]
    );
}

#[test]
fn a_relation_the_model_lacks_entirely_is_all_missing() {
    let e = expecting("Solution", vec![model(vec![fact("s", "(s 1)"), fact("s", "(s 2)")])]);
    let a = actual(vec![1], vec![], vec![]);
    let r = check(&e, &Answer::Verdict(Verdict::Solution(a)), true);
    assert_eq!(
        lines(&r),
        vec!["s: expected (s 1), and the model has no such fact", "s: expected (s 2), and the model has no such fact"]
    );
}

#[test]
fn a_match_from_a_stopped_search_is_not_checked() {
    let e = expecting("Solution", vec![model(vec![fact("r", "(r a)")])]);
    let a = actual(vec![1], vec![("r", vec![held("(r a)", None)]), ("s", vec![held("(s q)", None)])], vec![]);
    let r = check(&e, &Answer::Verdict(Verdict::Solution(a)), false);
    assert_eq!(r.outcome, Outcome::NotChecked);
    assert_eq!(
        lines(&r),
        vec![
            "every listed model matches, but the search was not exhausted — k is a lower bound, so nothing \
             here is established. Either the run stopped at -n, or the frontier is still alive at --max-set-size."
        ]
    );
}

fn two_models() -> Vec<Actual> {
    let a = actual(vec![1], vec![("r", vec![held("(r x)", None)]), ("s", vec![held("(s 1)", None)])], vec![]);
    let b = actual(
        vec![2],
        vec![("r", vec![held("(r x)", None), held("(r y)", None)]), ("s", vec![held("(s 1)", None)])],
        vec![],
    );
    vec![a, b]
}

#[test]
fn pairing_is_not_greedy() {
    // The first expectation fits both models, the second only the first:
    // pairing the first with the first model would strand the second.
    let loose = model(vec![fact("s", "(s 1)")]);
    let tight = model(vec![fact("s", "(s 1)"), fact("r", "(r x)")]);
    let e = expecting("Ambiguity", vec![loose, tight]);
    let r = check(&e, &Answer::Verdict(Verdict::Ambiguity(two_models())), true);
    assert_eq!(r.outcome, Outcome::Held);
    assert!(r.lines.is_empty());
}

#[test]
fn two_expectations_claiming_one_model_are_not_distinct() {
    let tight = || model(vec![fact("r", "(r x)")]);
    let e = expecting("Ambiguity", vec![tight(), tight()]);
    let r = check(&e, &Answer::Verdict(Verdict::Ambiguity(two_models())), true);
    assert_eq!(r.outcome, Outcome::Failed);
    assert_eq!(
        lines(&r),
        vec![
            "expectation 2 of 2: matches a model that another expectation also claims — the 2 expectations \
             are not distinct"
        ]
    );
}

#[test]
fn an_unmatched_expectation_is_explained_against_its_closest_model() {
    let far = model(vec![fact("r", "(r w)")]);
    let loose = model(vec![fact("s", "(s 1)")]);
    let e = expecting("Ambiguity", vec![loose, far]);
    let r = check(&e, &Answer::Verdict(Verdict::Ambiguity(two_models())), true);
    assert_eq!(r.outcome, Outcome::Failed);
    assert_eq!(
        lines(&r),
        vec![
            "expectation 2 of 2: r: expected (r w), and the model has no such fact",
            "expectation 2 of 2: r: the model also has (r x), which the expectation does not list (naming a \
             relation closes it)",
        ]
    );
}

#[test]
fn kuhn_finds_the_matching_greedy_misses() {
    let fits = vec![vec![true, true], vec![true, false]];
    assert_eq!(first_unmatched(&fits, 2), None);
    let fits = vec![vec![true, false], vec![true, false]];
    assert_eq!(first_unmatched(&fits, 2), Some(1));
    let fits = vec![vec![false, false], vec![true, true]];
    assert_eq!(first_unmatched(&fits, 2), Some(0));
    let none: Vec<Vec<bool>> = Vec::new();
    assert_eq!(first_unmatched(&none, 0), None);
}

#[test]
fn a_model_is_well_formed_with_one_extent_per_relation_and_each_fact_once() {
    let good = actual(vec![1], vec![("r", vec![held("(r a)", None)]), ("s", vec![held("(s a)", None)])], vec![]);
    assert!(good.is_wf());
    let twice = actual(vec![1], vec![("r", vec![held("(r a)", None)]), ("r", vec![])], vec![]);
    assert!(!twice.is_wf());
    let dup = actual(vec![1], vec![("r", vec![held("(r a)", None), held("(r a)", None)])], vec![]);
    assert!(!dup.is_wf());
}
