use ein_infer::boundary::{admit_from_boundary, narrate_decision, park, refresh_epochs, Boundary, Decision, Verdict};
use ein_infer::events::{Events, Level};
use ein_infer::facts::FactTable;

/// Entries 0..4, guard sets: 0 watches relation 0, 1 watches relation 1.
fn boundary(parked: Vec<(i64, u64, u32)>) -> Boundary {
    Boundary {
        parked,
        epoch: 0,
        judged_at: vec![0; 4],
        guard_set: vec![0, 0, 1, 1],
        gs_epoch: vec![0, 0],
        watches: vec![vec![0], vec![1]],
        watched_sizes: vec![0, 0],
        naf_rounds: 0,
        naf_admitted: 0,
        naf_retired: 0,
    }
}

/// `p ← absent q; q ← absent p`: both guards pass against the empty world,
/// so a batch admission would derive both. One round admits one.
#[test]
fn an_unstratifiable_program_derives_one_of_the_two() {
    let mut b = boundary(vec![(1000, 1, 0), (1000, 2, 1)]);
    let r = admit_from_boundary(&mut b, &[0, 0], &[false; 4], &[Verdict::Pass; 4]);
    assert_eq!(r.admitted, Some((1000, 1, 0)));
    assert_eq!(r.decisions, vec![(1, Decision::Admitted)]);
    assert_eq!(b.parked, vec![(1000, 2, 1)]);
    assert_eq!((b.naf_rounds, b.naf_admitted, b.epoch), (1, 1, 1));
}

#[test]
fn nothing_parked_is_a_silent_round() {
    let mut b = boundary(vec![]);
    let r = admit_from_boundary(&mut b, &[5, 5], &[false; 4], &[Verdict::Pass; 4]);
    assert!(r.admitted.is_none() && r.decisions.is_empty());
    assert_eq!((b.naf_rounds, b.epoch), (0, 0));
    assert_eq!(b.watched_sizes, vec![0, 0], "the sizes are read only when something is parked");
}

#[test]
fn fired_dropped_retired_parked_then_admitted_in_rank_order() {
    let mut b = boundary(vec![(10, 1, 3), (10, 2, 0), (20, 3, 2), (30, 4, 1)]);
    let fired = [false, false, false, true];
    let verdicts = [
        Verdict::Fails { guard: 0, monotone: true },
        Verdict::Pass,
        Verdict::Fails { guard: 1, monotone: false },
        Verdict::Pass,
    ];
    let r = admit_from_boundary(&mut b, &[1, 0], &fired, &verdicts);
    assert_eq!(
        r.decisions,
        vec![(1, Decision::Fired), (2, Decision::Retired), (3, Decision::Parked), (4, Decision::Admitted)]
    );
    assert_eq!(r.admitted, Some((30, 4, 1)));
    assert_eq!(b.parked, vec![(20, 3, 2)]);
    assert_eq!(b.judged_at, vec![0, 0, 1, 0], "the failure is stamped with the round's epoch");
    assert_eq!(b.gs_epoch, vec![1, 0], "only relation 0 grew");
    assert_eq!((b.naf_retired, b.naf_admitted), (1, 1));
    // Nothing entry 2 watches grows: the next round leaves it alone.
    let r = admit_from_boundary(&mut b, &[2, 0], &fired, &verdicts);
    assert_eq!(r.decisions, vec![(3, Decision::Unchanged)]);
    assert!(r.admitted.is_none());
    // Its relation grows: it is judged again, and now passes.
    let r = admit_from_boundary(&mut b, &[2, 7], &fired, &[Verdict::Pass; 4]);
    assert_eq!(r.decisions, vec![(3, Decision::Admitted)]);
    assert!(b.parked.is_empty());
    assert_eq!(b.naf_rounds, 3);
}

#[test]
fn the_clock_moves_only_the_sets_that_watch_a_grown_relation() {
    let mut b = boundary(vec![]);
    refresh_epochs(&mut b, &[0, 3]);
    assert_eq!((b.epoch, b.gs_epoch.clone(), b.watched_sizes.clone()), (1, vec![0, 1], vec![0, 3]));
    refresh_epochs(&mut b, &[0, 3]);
    assert_eq!((b.epoch, b.gs_epoch.clone()), (2, vec![0, 1]));
}

#[test]
fn parking_keeps_rank_order() {
    let mut b = boundary(vec![]);
    park(&mut b, (20, 2, 1));
    park(&mut b, (10, 3, 2));
    park(&mut b, (20, 1, 0));
    assert_eq!(b.parked, vec![(10, 3, 2), (20, 1, 0), (20, 2, 1)]);
}

#[test]
fn a_decision_narrates_admit_park_or_retire() {
    let names = ["rule-a", "zeta", "alpha"].iter().map(|s| s.to_string()).collect();
    let t = FactTable { names, rows: vec![] };
    let (mut ev, _) = Events::to(Level::Normal);
    assert_eq!(
        narrate_decision(&mut ev, &t, 2, 7, 0, Decision::Admitted, &[]).as_deref(),
        Some("{\"e\": \"admit\", \"n\": 1, \"tiebreaker\": 7, \"round\": 2, \"rule\": \"rule-a\"}")
    );
    assert_eq!(
        narrate_decision(&mut ev, &t, 2, 8, 0, Decision::Parked, &[1, 2]).as_deref(),
        Some("{\"e\": \"park\", \"n\": 2, \"tiebreaker\": 8, \"round\": 2, \"rule\": \"rule-a\", \"watched\": [\"alpha\", \"zeta\"]}")
    );
    assert_eq!(narrate_decision(&mut ev, &t, 2, 9, 0, Decision::Unchanged, &[1]), None);
    assert_eq!(ev.seq(), 3);
}
