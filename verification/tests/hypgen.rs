use ein_infer::facts::{intern_fact, Arg, Row};
use ein_infer::hypgen::write_negated;
use ein_infer::facts::FactTable;
use ein_infer::fxset::empty_set;
use ein_infer::hypgen::{
    blind_candidates, by_participation, candidate_objects, relation_plan, scoring, BlindStep, Drop, HypGenStats, RelPlan,
    ScoreError, Scoring, Skip,
};
use ein_infer::oblgen::RelationDecl;
use ein_infer::oblgen::{Mode, RungReport};

#[test]
fn the_stats_report_omits_the_keys_that_never_fired() {
    let mut stats = HypGenStats::new();
    stats.raw = 9;
    stats.emitted = 1;
    stats.bump(Drop::LookaheadKilled);
    stats.bump(Drop::FactAlreadyExists);
    stats.bump(Drop::FactAlreadyExists);
    stats.skip(Skip::SelfEdge);
    assert_eq!(
        stats.report_lines(),
        [
            "  raw                9",
            "  emitted            1",
            "  filtered.fact_already_exists 2",
            "  filtered.lookahead_killed   1",
            "  pre.self_edge               1",
        ]
    );
    assert!(!stats.balances(), "1 + 3 != 9");
    stats.raw = 4;
    assert!(stats.balances());
}

#[test]
fn the_obligations_rung_prints_its_own_lines() {
    let mut stats = HypGenStats::new();
    stats.rung = RungReport {
        mode: Mode::Obligations,
        owed: 1,
        branches: 1,
        declined: 0,
        candidates: 2,
        uncovered: 3,
    };
    assert_eq!(
        stats.report_lines(),
        [
            "  raw                0",
            "  emitted            0",
            "  rung               obligations",
            "  rung.owed          1",
            "  rung.branches      1",
            "  rung.declined      0",
            "  rung.uncovered     3",
        ]
    );
    stats.rung.mode = Mode::Hrules;
    assert_eq!(stats.report_lines().len(), 2);
    stats.rung = RungReport { mode: Mode::Stuck, ..RungReport::new() };
    assert_eq!(
        stats.report_lines()[2..],
        ["  rung               stuck", "  rung.uncovered     0"]
    );
}

#[test]
fn filter_and_skip_names_are_the_sorted_keys() {
    assert_eq!(Drop::NegatedFact.as_str(), "negated_fact");
    assert_eq!(Drop::SeenInCall.as_str(), "seen_in_call");
    assert_eq!(Skip::ClosedRelation.as_str(), "closed_relation");
    assert_eq!(Skip::NoHypothesisRelation.as_str(), "no_hypothesis_relation");
    assert_eq!(Skip::RelationNotWhitelisted.as_str(), "relation_not_whitelisted");
    for i in 0..4 {
        assert_eq!(Drop::from_index(i).index(), i);
        assert_eq!(Skip::from_index(i).index(), i);
    }
}

#[test]
fn a_kb_without_a_config_scores_neutral_and_modes_are_told_apart() {
    assert_eq!(scoring(None), Ok(Scoring::Neutral));
    assert_eq!(scoring(Some("most-constrained")), Ok(Scoring::Neutral));
    assert_eq!(scoring(Some("popularity")), Ok(Scoring::Popularity));
    match scoring(Some("branch-info")) {
        Err(ScoreError::NotImplemented(m)) => assert!(m.starts_with(
            "hypgen-scoring='branch-info' is reserved for a follow-up stage; today only 'most-constrained' and \
             'popularity' are wired."
        )),
        other => panic!("{other:?}"),
    }
    assert!(matches!(scoring(Some("popularity+branch-info")), Err(ScoreError::NotImplemented(_))));
    assert_eq!(
        scoring(Some("nonsense")),
        Err(ScoreError::Unknown(
            "unknown hypgen-scoring mode: 'nonsense' (expected 'most-constrained' or 'popularity')".to_string()
        ))
    );
}

#[test]
fn the_unwired_modes_report_ein_pys_text() {
    assert_eq!(
        scoring(Some("branch-info")),
        Err(ScoreError::NotImplemented(
            "hypgen-scoring='branch-info' is reserved for a follow-up \
             stage; today only 'most-constrained' and 'popularity' are \
             wired. See M1 P1.5as1.5a.7_hypgen_scoring_branch_info.md \
             § T1.5a.7.3."
                .to_string()
        ))
    );
    assert_eq!(
        scoring(Some("nonsense")),
        Err(ScoreError::Unknown(
            "unknown hypgen-scoring mode: 'nonsense' (expected \
             'most-constrained' or 'popularity')"
                .to_string()
        ))
    );
}

fn names(list: &[&str]) -> FactTable {
    FactTable { names: list.iter().map(|s| s.to_string()).collect(), rows: vec![] }
}

/// `(relation r T) (r A) (not (r B)) (relation s T) (s B)`: the KB names
/// r, T, A, not, B and s, of which T, A, not and B are of the object
/// category. `T` is named in a signature and `not` is reserved, so neither
/// is a candidate — while `A`, which no signature mentions, is.
#[test]
fn candidate_objects_drop_signature_atoms_and_primitives() {
    let t = names(&["r", "T", "not", "B", "A", "s"]);
    let kb_names = [(0, false), (1, true), (4, true), (2, true), (3, true), (5, false)];
    let got: Vec<&str> = candidate_objects(&t, &kb_names, &[vec![1], vec![1]], &[2])
        .iter()
        .map(|&s| t.names[s as usize].as_str())
        .collect();
    assert_eq!(got, ["A", "B"], "sorted by name, T and `not` excluded");
}

#[test]
fn the_focal_order_is_participation_then_name() {
    let t = names(&["carol", "alice", "bob", "dave"]);
    let objects = vec![0, 1, 2, 3];
    assert_eq!(by_participation(&t, &objects, &[2, 5, 2, 0]), vec![1, 2, 0, 3]);
    assert!(by_participation(&t, &vec![], &[]).is_empty());
}

#[test]
fn the_relation_walk_keeps_declaration_order_and_scopes_once() {
    let mut closed = empty_set();
    closed.insert(7);
    let mut excluded = empty_set();
    excluded.insert(8);
    let decl = |name: u32, arity: usize| RelationDecl { name, arity };
    let plans = relation_plan(&[decl(9, 2), decl(7, 1), decl(6, 0), decl(8, 3)], &None, &excluded, &closed);
    assert_eq!(
        plans,
        vec![
            RelPlan { rel: 9, arity: 2, skip: None },
            RelPlan { rel: 7, arity: 1, skip: Some(Skip::ClosedRelation) },
            RelPlan { rel: 8, arity: 3, skip: Some(Skip::NoHypothesisRelation) },
        ]
    );
    let mut allowed = empty_set();
    allowed.insert(9);
    let plans = relation_plan(&[decl(9, 2), decl(5, 1)], &Some(allowed), &excluded, &closed);
    assert_eq!(plans[1].skip, Some(Skip::RelationNotWhitelisted));
}

#[test]
fn the_blind_walk_fills_every_slot_of_every_open_relation() {
    let plans = [
        RelPlan { rel: 10, arity: 2, skip: None },
        RelPlan { rel: 11, arity: 1, skip: Some(Skip::ClosedRelation) },
        RelPlan { rel: 12, arity: 1, skip: None },
        RelPlan { rel: 13, arity: 3, skip: None },
    ];
    let steps = blind_candidates(&plans, &[1], &[1, 2]);
    let c = |rel: u32, first: u32, second: Option<u32>| BlindStep::Candidate { rel, first, second };
    let self_edge = BlindStep::Skipped { rel: 10, skip: Skip::SelfEdge, object: Some(1) };
    assert_eq!(
        steps,
        vec![
            self_edge,
            c(10, 1, Some(2)),
            self_edge,
            c(10, 2, Some(1)),
            BlindStep::Skipped { rel: 11, skip: Skip::ClosedRelation, object: None },
            c(12, 1, None),
        ]
    );
    assert_eq!(blind_candidates(&plans, &[1, 2], &[1, 2]).len(), 12);
}

/// Names: 0 `not`, 1 p, 2 a. Fact 0 is `(p a)`. The first write caches
/// `(not (p a))` as a new fact; the second finds it held and writes nothing.
#[test]
fn a_killed_candidate_is_cached_once_as_its_negation() {
    let mut t = names(&["not", "p", "a"]);
    t.rows.push(Row { rel: 1, args: vec![Arg::Sym(2)] });
    let mut kb: Vec<u32> = vec![0];
    assert_eq!(write_negated(&mut t, &mut kb, 0, 0), Some(1));
    assert_eq!(kb, vec![0, 1]);
    assert_eq!(t.rows[1].rel, 0);
    assert_eq!(t.rows[1].args, vec![Arg::Fact(0)]);
    assert_eq!(write_negated(&mut t, &mut kb, 0, 0), None);
    assert_eq!(kb, vec![0, 1]);
    assert_eq!(t.rows.len(), 2);
    // Interning an existing fact hands back its id; a new one is appended.
    assert_eq!(intern_fact(&mut t, 0, vec![Arg::Fact(0)]), 1);
    assert_eq!(intern_fact(&mut t, 1, vec![Arg::Sym(1)]), 2);
    assert_eq!(t.rows.len(), 3);
}
