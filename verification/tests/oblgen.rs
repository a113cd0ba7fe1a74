use ein_infer::events::{Events, Level};
use ein_infer::hypgen::Skip;
use ein_infer::oblgen::{
    hypskip, narrate, plan_rung, settle, Choice, Decline, Mode, Obligation, RelationDecl, RungPlan, ScopedOut,
};
use rustc_hash::FxHashSet;

// Relation ids of the programs below.
const IS_A: u32 = 1;
const LIKES: u32 = 2;
const SORT: u32 = 3;
const RELATION: u32 = 4;

// The candidate facts `(likes Ann Soup)` and `(likes Ann Stew)`.
const ANN_SOUP: u32 = 100;
const ANN_STEW: u32 = 101;

fn decls() -> Vec<RelationDecl> {
    vec![
        RelationDecl { name: IS_A, arity: 2 },
        RelationDecl { name: LIKES, arity: 2 },
        RelationDecl { name: SORT, arity: 2 },
        RelationDecl { name: RELATION, arity: 0 },
    ]
}

fn none() -> FxHashSet<u32> {
    FxHashSet::default()
}

fn plan(obs: &Vec<Obligation>, choice: Choice) -> RungPlan {
    plan_rung(obs, &decls(), &None, &none(), &none(), choice)
}

/// `(owed likes is-a)` over the OWING program with Soup and Stew as foods:
/// Ann likes nothing yet, so one instance is owed, and its branch is every
/// food the guard scans.
fn owing_likes(relation: Option<u32>) -> Obligation {
    Obligation {
        relation,
        resolves: true,
        scans: vec![RELATION, IS_A],
        owed: vec![vec![ANN_SOUP, ANN_STEW]],
    }
}

#[test]
fn the_branch_is_the_extent_the_guard_scans() {
    let obs = vec![owing_likes(Some(LIKES))];
    let p = plan(&obs, Choice::RuleOrder);
    let r = settle(p.report, false, 0, 1);
    assert_eq!(r.mode, Mode::Obligations);
    assert_eq!((r.owed, r.branches, r.declined), (1, 1, 0));
    assert_eq!(r.candidates, 2, "Soup and Stew, and nothing else");
    assert_eq!(p.branches, vec![vec![ANN_SOUP, ANN_STEW]]);
    // is-a and sort are eligible and owed by nothing.
    assert_eq!(r.uncovered, 2);
}

#[test]
fn a_bare_open_has_no_branch_and_declines() {
    let obs = vec![owing_likes(None)];
    let p = plan(&obs, Choice::RuleOrder);
    assert_eq!(p.report.mode, Mode::Declined);
    assert_eq!(p.decline, Some(Decline::BareOpen));
    assert!(p.branches.is_empty());
}

#[test]
fn owed_with_nothing_surviving_is_stuck() {
    let obs = vec![owing_likes(Some(LIKES))];
    let p = plan(&obs, Choice::RuleOrder);
    // Every candidate rejected: nothing was emitted.
    assert_eq!(settle(p.report, false, 5, 5).mode, Mode::Stuck);
    // One kept.
    assert_eq!(settle(p.report, false, 5, 6).mode, Mode::Obligations);
}

#[test]
fn an_obligation_that_scans_what_the_rung_proposes_declines() {
    let second = Obligation {
        relation: Some(IS_A),
        resolves: true,
        scans: vec![RELATION, SORT],
        owed: vec![vec![7], vec![8]],
    };
    let obs = vec![owing_likes(Some(LIKES)), second];
    let p = plan(&obs, Choice::RuleOrder);
    assert_eq!(p.report.mode, Mode::Declined);
    assert_eq!(p.decline, Some(Decline::Scans(IS_A)));
    assert_eq!((p.report.owed, p.report.candidates, p.report.uncovered), (0, 0, 0));
}

#[test]
fn off_declines_every_call() {
    let obs = vec![owing_likes(Some(LIKES))];
    let p = plan(&obs, Choice::Off);
    assert_eq!(p.decline, Some(Decline::Off));
    assert_eq!(p.report.mode, Mode::Declined);
}

#[test]
fn an_unresolved_projection_declines_before_any_scan_is_read() {
    let mut first = owing_likes(Some(LIKES));
    first.resolves = false;
    let obs = vec![first, owing_likes(None)];
    assert_eq!(plan(&obs, Choice::RuleOrder).decline, Some(Decline::Unresolved));
}

#[test]
fn scoping_counts_instances_it_does_not_branch_on() {
    let obs = vec![
        Obligation { relation: Some(SORT), resolves: true, scans: vec![], owed: vec![vec![1], vec![2, 3]] },
        owing_likes(Some(LIKES)),
    ];
    let closed: FxHashSet<u32> = [SORT].into_iter().collect();
    let p = plan_rung(&obs, &decls(), &None, &none(), &closed, Choice::RuleOrder);
    assert_eq!(p.decline, None);
    assert_eq!((p.report.owed, p.report.branches, p.report.declined), (3, 1, 2));
    assert_eq!(p.report.candidates, 2);
    assert_eq!(
        p.scoped_out,
        vec![ScopedOut { relation: SORT, skip: Skip::ClosedRelation, instances: 2 }]
    );
    assert_eq!(p.branches, vec![vec![ANN_SOUP, ANN_STEW]]);
    // sort is closed and likes and sort are owed: only is-a is uncovered.
    assert_eq!(p.report.uncovered, 1);
    // Everything scoped out and nothing emitted is stuck.
    let only = vec![Obligation { relation: Some(SORT), resolves: true, scans: vec![], owed: vec![vec![1]] }];
    let p = plan_rung(&only, &decls(), &None, &none(), &closed, Choice::RuleOrder);
    assert_eq!(settle(p.report, false, 0, 0).mode, Mode::Stuck);
}

#[test]
fn fail_first_walks_the_narrowest_instance_first_and_keeps_ties_in_order() {
    let obs = vec![Obligation {
        relation: Some(LIKES),
        resolves: true,
        scans: vec![IS_A],
        owed: vec![vec![1, 2, 3], vec![4], vec![5, 6], vec![7]],
    }];
    let p = plan(&obs, Choice::FailFirst);
    assert_eq!(p.branches, vec![vec![4], vec![7], vec![5, 6], vec![1, 2, 3]]);
    let p = plan(&obs, Choice::RuleOrder);
    assert_eq!(p.branches, vec![vec![1, 2, 3], vec![4], vec![5, 6], vec![7]]);
    assert_eq!(p.report.candidates, 7);
}

#[test]
fn a_stopped_walk_is_never_stuck() {
    let obs = vec![owing_likes(Some(LIKES))];
    let p = plan(&obs, Choice::RuleOrder);
    assert_eq!(settle(p.report, true, 0, 0).mode, Mode::Obligations);
}

#[test]
fn the_rung_event_carries_mode_reason_and_counts() {
    let (mut events, _) = Events::to(Level::Normal);
    let obs = vec![owing_likes(Some(LIKES))];
    let p = plan(&obs, Choice::RuleOrder);
    let line = narrate(&mut events, &p.report, Choice::RuleOrder.as_str());
    assert_eq!(
        line.as_deref(),
        Some(
            "{\"e\": \"rung\", \"n\": 1, \"mode\": \"obligations\", \"reason\": \"rule-order\", \"owed\": 1, \
             \"branches\": 1, \"declined\": 0, \"candidates\": 2, \"uncovered\": 2}"
        )
    );
    let why = Decline::Scans(IS_A).reason("is-a");
    assert_eq!(why, "an obligation scans `is-a`, which the rung itself proposes");
    // hypskip is verbose-only.
    assert_eq!(hypskip(&mut events, "sort", Skip::ClosedRelation), None);
    let (mut loud, _) = Events::to(Level::Verbose);
    assert_eq!(
        hypskip(&mut loud, "sort", Skip::ClosedRelation).as_deref(),
        Some("{\"e\": \"hypskip\", \"n\": 1, \"relation\": \"sort\", \"reason\": \"closed_relation\"}")
    );
    let mut off = Events::off();
    assert_eq!(narrate(&mut off, &p.report, "rule-order"), None);
}
