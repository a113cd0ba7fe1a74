use ein_infer::contradiction::{FactBase, Shape};
use ein_infer::events::{Events, Level};
use ein_infer::facts::{Arg, FactTable, Row};
use ein_infer::fxset::empty_set;
use ein_infer::hypgen::{apply_filters, emit, Drop, HypGenStats};

/// 0 (r a) held, 1 (r b) negated by 2 (not (r b)), 3 (r c) free.
fn world() -> (FactTable, FactBase) {
    let names = ["r", "a", "b", "c", "not"].iter().map(|s| s.to_string()).collect();
    let rows = vec![
        Row { rel: 0, args: vec![Arg::Sym(1)] },
        Row { rel: 0, args: vec![Arg::Sym(2)] },
        Row { rel: 4, args: vec![Arg::Fact(1)] },
        Row { rel: 0, args: vec![Arg::Sym(3)] },
    ];
    let kb = FactBase {
        shapes: vec![Shape::Positive, Shape::Positive, Shape::Not(Some(1)), Shape::Positive],
        held: vec![true, false, true, false],
        falses: vec![],
        negations: vec![2],
    };
    (FactTable { names, rows }, kb)
}

#[test]
fn the_filters_run_in_attribution_order() {
    let (_, kb) = world();
    let mut seen = empty_set();
    let mut stats = HypGenStats::new();
    assert_eq!(apply_filters(&kb, &mut seen, &mut stats, 1, true), Some(Drop::NegatedFact));
    assert_eq!(apply_filters(&kb, &mut seen, &mut stats, 0, true), Some(Drop::FactAlreadyExists));
    assert_eq!(apply_filters(&kb, &mut seen, &mut stats, 3, true), Some(Drop::LookaheadKilled));
    assert!(seen.is_empty(), "a dropped candidate is not seen");
    assert_eq!(apply_filters(&kb, &mut seen, &mut stats, 3, false), None);
    assert_eq!(apply_filters(&kb, &mut seen, &mut stats, 3, false), Some(Drop::SeenInCall));
    assert_eq!(stats.filtered, [1, 1, 1, 1]);
}

#[test]
fn every_candidate_is_counted_and_narrated() {
    let (t, kb) = world();
    let mut seen = empty_set();
    let mut stats = HypGenStats::new();
    let (mut ev, _) = Events::to(Level::Normal);
    let (kept, line) = emit(&mut ev, &t, &kb, &mut seen, &mut stats, 3, false);
    assert!(kept);
    assert_eq!(line.as_deref(), Some("{\"e\": \"hyp\", \"n\": 1, \"fact\": \"(r c)\", \"verdict\": \"emitted\"}"));
    let (kept, line) = emit(&mut ev, &t, &kb, &mut seen, &mut stats, 1, false);
    assert!(!kept);
    assert_eq!(line.as_deref(), Some("{\"e\": \"hyp\", \"n\": 2, \"fact\": \"(r b)\", \"verdict\": \"negated_fact\"}"));
    assert_eq!((stats.raw, stats.emitted), (2, 1));
    assert!(stats.balances(), "raw == emitted + the filtered");
    let mut quiet = Events::off();
    assert_eq!(emit(&mut quiet, &t, &kb, &mut seen, &mut stats, 3, false), (false, None));
    assert_eq!(stats.filtered, [0, 0, 1, 1]);
}
