use ein_infer::events::{sexpr, Events, Level};
use ein_infer::facts::{Arg, FactTable, Row};
use ein_infer::mirror::{
    enqueue_mirror_sources, has_pending_mirror, narrate, next_mirror, symmetric_rels, Mirror, SYMMETRIC,
};

/// Names: 0 zeta, 1 alpha, 2 mid, 3 `__symmetric__`, 4 z1, 5 z2, 6 a1, 7 a2,
/// 8 m1, 9 m2. Facts, in the order the KB holds them: the three markers,
/// zeta's first, then one edge of each relation.
fn world() -> (FactTable, Vec<u32>) {
    let names = ["zeta", "alpha", "mid", SYMMETRIC, "z1", "z2", "a1", "a2", "m1", "m2"]
        .iter()
        .map(|s| s.to_string())
        .collect();
    let rows = vec![
        Row { rel: 3, args: vec![Arg::Sym(0)] },
        Row { rel: 3, args: vec![Arg::Sym(1)] },
        Row { rel: 3, args: vec![Arg::Sym(2)] },
        Row { rel: 0, args: vec![Arg::Sym(4), Arg::Sym(5)] },
        Row { rel: 1, args: vec![Arg::Sym(6), Arg::Sym(7)] },
        Row { rel: 2, args: vec![Arg::Sym(8), Arg::Sym(9)] },
    ];
    (FactTable { names, rows }, vec![0, 1, 2, 3, 4, 5])
}

/// The seed is sorted by name — alpha, mid, zeta — and the stack is LIFO,
/// so the last relation seeded mirrors first.
#[test]
fn the_mirror_seeds_its_relations_in_name_order() {
    let (mut t, mut kb) = world();
    let syms = symmetric_rels(&t, &kb, 3);
    assert_eq!(syms, vec![1, 2, 0]);
    let mut m = Mirror::new();
    let mut order: Vec<String> = Vec::new();
    let mut alternatives: Vec<(u32, u32)> = Vec::new();
    loop {
        let step = next_mirror(&mut m, &mut t, &mut kb, &syms);
        alternatives.extend(step.alternatives);
        match step.wrote {
            Some(w) => order.push(sexpr(&t, w.stored)),
            None => break,
        }
    }
    assert_eq!(order, ["(zeta z2 z1)", "(mid m2 m1)", "(alpha a2 a1)"]);
    assert_eq!(kb, vec![0, 1, 2, 3, 4, 5, 6, 7, 8]);
    assert_eq!(alternatives, vec![(3, 6), (5, 7), (4, 8)], "each mirror's own mirror is a second derivation");
    assert!(!has_pending_mirror(&t, &kb, &syms));
}

#[test]
fn a_held_mirror_a_loop_and_an_unmarked_relation_write_nothing() {
    let names = ["r", SYMMETRIC, "a", "b", "s"].iter().map(|s| s.to_string()).collect();
    let rows = vec![
        Row { rel: 1, args: vec![Arg::Sym(0)] },
        Row { rel: 0, args: vec![Arg::Sym(2), Arg::Sym(3)] },
        Row { rel: 0, args: vec![Arg::Sym(3), Arg::Sym(2)] },
        Row { rel: 0, args: vec![Arg::Sym(2), Arg::Sym(2)] },
        Row { rel: 4, args: vec![Arg::Sym(2), Arg::Sym(3)] },
    ];
    let mut t = FactTable { names, rows };
    let mut kb = vec![0, 1, 2, 3, 4];
    let syms = symmetric_rels(&t, &kb, 1);
    assert_eq!(syms, vec![0]);
    assert!(!has_pending_mirror(&t, &kb, &syms));
    let mut m = Mirror::new();
    let step = next_mirror(&mut m, &mut t, &mut kb, &syms);
    assert!(step.wrote.is_none());
    assert_eq!(step.alternatives, vec![(1, 2), (2, 1)]);
    assert!(m.seeded && m.queue.is_empty());
    assert_eq!(t.rows.len(), 5, "nothing interned");
}

#[test]
fn an_already_interned_mirror_is_reused_and_a_new_edge_is_queued() {
    // (r a b) held; (r b a) interned (as some nested argument) but not held.
    let names = ["r", SYMMETRIC, "a", "b", "c"].iter().map(|s| s.to_string()).collect();
    let rows = vec![
        Row { rel: 1, args: vec![Arg::Sym(0)] },
        Row { rel: 0, args: vec![Arg::Sym(2), Arg::Sym(3)] },
        Row { rel: 0, args: vec![Arg::Sym(3), Arg::Sym(2)] },
    ];
    let mut t = FactTable { names, rows };
    let mut kb = vec![0, 1];
    let syms = symmetric_rels(&t, &kb, 1);
    assert!(has_pending_mirror(&t, &kb, &syms));
    let mut m = Mirror::new();
    let w = next_mirror(&mut m, &mut t, &mut kb, &syms).wrote.expect("a mirror");
    assert_eq!((w.src, w.stored, w.rel, w.a, w.b), (1, 2, 0, Arg::Sym(2), Arg::Sym(3)));
    assert_eq!(t.rows.len(), 3, "the interned mirror is reused");
    assert_eq!(kb, vec![0, 1, 2]);
    assert!(!has_pending_mirror(&t, &kb, &syms));
    // A firing writes (r a c): it joins the stack and gets its mirror.
    t.rows.push(Row { rel: 0, args: vec![Arg::Sym(2), Arg::Sym(4)] });
    kb.push(3);
    enqueue_mirror_sources(&mut m, &t, &syms, &[3, 0]);
    assert_eq!(m.queue, vec![2, 3], "the marker is no source");
    assert!(has_pending_mirror(&t, &kb, &syms));
    let w = next_mirror(&mut m, &mut t, &mut kb, &syms).wrote.expect("a mirror");
    assert_eq!((w.src, w.stored), (3, 4));
    assert_eq!(sexpr(&t, 4), "(r c a)");
    let (mut events, _) = Events::to(Level::Normal);
    assert_eq!(
        narrate(&mut events, &t, &w).as_deref(),
        Some("{\"e\": \"mirror\", \"n\": 1, \"relation\": \"r\", \"src\": \"(r a c)\", \"derived\": \"(r c a)\"}")
    );
}
