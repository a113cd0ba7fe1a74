use ein_infer::naf_deps::{
    compute_naf_map, derived_naf_warnings, naf_warnings, PlanNaf, RelRef, Refutation, DERIVED_NAF,
    REFUTATION_UNDER_ABSENT,
};
use rustc_hash::FxHashSet;

const FALSE: u32 = 1;
const NOT: u32 = 2;
const EDGE: u32 = 10;
const PATH: u32 = 11;
const BLOCK: u32 = 12;

fn watch(rel: u32, name: &str, negated: bool) -> RelRef {
    RelRef { rel, name: name.to_string(), negated }
}

fn plan(rule: &str, activator: &[&str], asserts: Option<u32>, refs: Vec<RelRef>, heads: Vec<u32>) -> PlanNaf {
    PlanNaf {
        rule: rule.to_string(),
        activator: activator.iter().map(|a| a.to_string()).collect(),
        asserts,
        negates: None,
        refs,
        heads,
    }
}

fn strings(v: &[&str]) -> Vec<String> {
    v.iter().map(|s| s.to_string()).collect()
}

fn program() -> Vec<PlanNaf> {
    let mut negating = plan("forbid", &[], None, vec![], vec![NOT]);
    negating.negates = Some(BLOCK);
    vec![
        plan("walk", &[], Some(PATH), vec![], vec![PATH]),
        plan(
            "guarded",
            &["b"],
            Some(EDGE),
            vec![watch(PATH, "path", false), watch(BLOCK, "block", true), watch(EDGE, "edge", false)],
            vec![EDGE],
        ),
        plan("guarded", &["a", "c"], None, vec![watch(BLOCK, "block", false)], vec![NOT]),
        plan("guarded", &["a"], None, vec![watch(PATH, "path", false), watch(PATH, "path", false)], vec![FALSE]),
        negating,
    ]
}

#[test]
fn watches_are_classified_and_records_sorted_by_rule_then_activator() {
    let deps = compute_naf_map(&program(), &FxHashSet::default(), FALSE, NOT);
    assert_eq!(deps.len(), 3);
    assert_eq!(deps[0].activator, strings(&["a"]));
    assert_eq!(deps[0].derived, strings(&["path"]));
    assert!(deps[0].declared_only.is_empty());
    assert_eq!(deps[1].activator, strings(&["a", "c"]));
    assert!(deps[1].derived.is_empty());
    assert_eq!(deps[1].declared_only, strings(&["block"]));
    assert_eq!(deps[2].activator, strings(&["b"]));
    // `edge` is derived by this very plan; a negated watch is classified
    // against the rules that assert the negative.
    assert_eq!(deps[2].derived, strings(&["(not block)", "edge", "path"]));
    assert!(deps.iter().all(|d| d.refutation.is_none()), "no eligible set, no refutation");
}

#[test]
fn a_refutation_over_an_eligible_relation_is_exposed() {
    let eligible: FxHashSet<u32> = [PATH, BLOCK].into_iter().collect();
    let deps = compute_naf_map(&program(), &eligible, FALSE, NOT);
    assert_eq!(
        deps[0].refutation,
        Some(Refutation { concludes: "(false)", watching: strings(&["path"]) })
    );
    assert_eq!(
        deps[1].refutation,
        Some(Refutation { concludes: "(not …)", watching: strings(&["block"]) })
    );
    // Derives `edge`, refutes nothing.
    assert_eq!(deps[2].refutation, None);
}

#[test]
fn a_negated_watch_is_no_exposure() {
    let plans = vec![plan("only-neg", &[], None, vec![watch(BLOCK, "block", true)], vec![FALSE])];
    let eligible: FxHashSet<u32> = [BLOCK].into_iter().collect();
    let deps = compute_naf_map(&plans, &eligible, FALSE, NOT);
    assert_eq!(deps[0].declared_only, strings(&["(not block)"]));
    assert_eq!(deps[0].refutation, None);
}

#[test]
fn the_advisories_quote_the_rule_and_its_activator() {
    let eligible: FxHashSet<u32> = [PATH].into_iter().collect();
    let ws = naf_warnings(&program(), &eligible, FALSE, NOT);
    assert_eq!(ws.len(), 3);
    assert_eq!(ws[0].category, DERIVED_NAF);
    assert!(ws[0].text.starts_with(
        "rule 'guarded' [activator a]: (absent …) watches rule-derived relation(s) path — the rule set may not \
         be stratified"
    ));
    assert_eq!(ws[1].category, REFUTATION_UNDER_ABSENT);
    assert!(ws[1].text.starts_with(
        "rule 'guarded' [activator a]: concludes (false) from (absent …) over path, which this program's \
         hypothesis generator can still propose"
    ));
    assert!(ws[2].text.starts_with(
        "rule 'guarded' [activator b]: (absent …) watches rule-derived relation(s) (not block), edge, path —"
    ));
    let plain = derived_naf_warnings(&program(), FALSE, NOT);
    assert_eq!(plain.len(), 2);
    assert_eq!(plain[0], ws[0].text);
    assert_eq!(plain[1], ws[2].text);
}

#[test]
fn a_rule_without_an_activator_has_no_suffix() {
    let plans = vec![
        plan("p", &[], Some(PATH), vec![watch(PATH, "path", false)], vec![PATH]),
    ];
    let lines = derived_naf_warnings(&plans, FALSE, NOT);
    assert_eq!(lines.len(), 1);
    assert!(lines[0].starts_with("rule 'p': (absent …) watches rule-derived relation(s) path — "));
    assert!(lines[0].ends_with("See S1.7.4."));
}
