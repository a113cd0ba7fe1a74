use ein_infer::events::{Events, Level};
use ein_infer::facts::{Arg, FactTable, Row};
use ein_infer::nogoods::{clause_repr, emit_nogood, narrate_nogood, NogoodOutcome};

#[test]
fn subsumption_keeps_the_store_minimal() {
    let mut store: Vec<Vec<u32>> = Vec::new();
    assert_eq!(emit_nogood(&mut store, &[5, 5], 2), NogoodOutcome::TooSmall, "one distinct member");
    assert!(store.is_empty());
    assert_eq!(emit_nogood(&mut store, &[3, 1, 3], 2), NogoodOutcome::Added { removed: 0 });
    assert_eq!(store, vec![vec![1, 3]]);
    assert_eq!(emit_nogood(&mut store, &[5, 1, 3], 2), NogoodOutcome::Subsumed);
    assert_eq!(store, vec![vec![1, 3]]);
    assert_eq!(emit_nogood(&mut store, &[2, 4], 2), NogoodOutcome::Added { removed: 0 });
    assert_eq!(emit_nogood(&mut store, &[1], 1), NogoodOutcome::Added { removed: 1 });
    assert_eq!(store, vec![vec![2, 4], vec![1]]);
    assert_eq!(emit_nogood(&mut store, &[], 0), NogoodOutcome::Added { removed: 2 });
    assert_eq!(store, vec![Vec::<u32>::new()]);
}

#[test]
fn a_clause_renders_sorted_and_its_event_says_what_happened() {
    let names = ["p", "a", "b"].iter().map(|s| s.to_string()).collect();
    let rows = vec![Row { rel: 0, args: vec![Arg::Sym(2)] }, Row { rel: 0, args: vec![Arg::Sym(1)] }];
    let t = FactTable { names, rows };
    assert_eq!(clause_repr(&t, &[0, 1]), vec!["(p a)", "(p b)"]);
    let (mut events, _) = Events::to(Level::Normal);
    let line = narrate_nogood(&mut events, &t, &[0, 1, 0], NogoodOutcome::Added { removed: 3 });
    assert_eq!(
        line.as_deref(),
        Some("{\"e\": \"nogood\", \"n\": 1, \"clause\": [\"(p a)\", \"(p b)\"], \"emitted\": true, \"subsumed\": false, \"removed\": 3}")
    );
    let line = narrate_nogood(&mut events, &t, &[1], NogoodOutcome::Subsumed);
    assert_eq!(
        line.as_deref(),
        Some("{\"e\": \"nogood\", \"n\": 2, \"clause\": [\"(p a)\"], \"emitted\": false, \"subsumed\": true}")
    );
    assert_eq!(narrate_nogood(&mut events, &t, &[1], NogoodOutcome::TooSmall), None);
    assert_eq!(events.seq(), 3);
}
