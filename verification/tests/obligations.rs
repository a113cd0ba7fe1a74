use ein_infer::events::{Events, Level};
use ein_infer::facts::{Arg, FactTable, Row};
use ein_infer::obligations::{narrate, tally, Hit, Owes, PlanRun};

fn hit(bindings: Vec<(u32, Arg)>, discharged: bool, why: &str) -> Hit {
    Hit { bindings, discharged, why: why.to_string() }
}

fn run(rule: u32, activator: Vec<u32>, relation: Option<u32>, hits: Vec<Hit>) -> PlanRun {
    PlanRun { rule, activator, relation, hits }
}

#[test]
fn nothing_declared_owes_nothing() {
    let o = tally(&[]);
    assert_eq!(o.total(), 0);
    assert!(o.is_empty());
    assert!(o.by_relation().is_empty());
    assert_eq!(o.owed_by(3), 0);
    assert_eq!(Owes::new().total(), 0);
}

#[test]
fn a_repeated_binding_is_one_debt_and_a_discharged_one_none() {
    let hits = vec![
        hit(vec![(7, Arg::Sym(1))], false, "a"),
        hit(vec![(7, Arg::Sym(1))], false, "a again"),
        hit(vec![(7, Arg::Sym(2))], true, "paid"),
        hit(vec![(7, Arg::Int(-4))], false, "c"),
    ];
    let o = tally(&[run(5, vec![3], Some(3), hits)]);
    assert_eq!(o.total(), 2);
    let items = o.instances();
    assert_eq!(items[0].bindings, vec![(7, Arg::Sym(1))]);
    assert_eq!(items[0].why, "a", "the first hit with the bindings is the one kept");
    assert_eq!(items[1].bindings, vec![(7, Arg::Int(-4))]);
    assert_eq!(items[1].rule, 5);
    assert_eq!(items[1].activator, vec![3]);
    assert_eq!(items[1].relation, Some(3));
}

#[test]
fn a_binding_is_deduplicated_within_a_plan_only() {
    let a = || vec![hit(vec![(7, Arg::Fact(0))], false, "")];
    let o = tally(&[run(5, vec![3], Some(3), a()), run(6, vec![4], Some(4), a())]);
    assert_eq!(o.total(), 2);
}

#[test]
fn a_discharged_first_hit_still_shadows_its_repeat() {
    let hits = vec![hit(vec![(1, Arg::Sym(1))], true, ""), hit(vec![(1, Arg::Sym(1))], false, "")];
    assert_eq!(tally(&[run(0, vec![], None, hits)]).total(), 0);
}

#[test]
fn the_per_relation_tally_is_in_first_owed_order_and_skips_bare_opens() {
    let one = |n: i64| hit(vec![(9, Arg::Int(n))], false, "");
    let o = tally(&[
        run(1, vec![20], Some(20), vec![one(1), one(2)]),
        run(2, vec![], None, vec![one(1), one(2), one(3)]),
        run(3, vec![10], Some(10), vec![one(1)]),
        run(4, vec![20], Some(20), vec![one(5)]),
    ]);
    assert_eq!(o.total(), 7);
    assert_eq!(o.by_relation(), vec![(20, 3), (10, 1)]);
    assert_eq!(o.owed_by(20), 3);
    assert_eq!(o.owed_by(10), 1);
    assert_eq!(o.owed_by(99), 0);
    let counted: usize = o.by_relation().iter().map(|(_, n)| n).sum();
    let bare = o.instances().iter().filter(|i| i.relation.is_none()).count();
    assert_eq!(counted + bare, o.total(), "every instance is counted once");
}

#[test]
fn each_debt_narrates_one_owe_event() {
    let names = ["fill", "pet-loc", "?x", "cat", "owner"].iter().map(|s| s.to_string()).collect();
    let rows = vec![Row { rel: 4, args: vec![Arg::Sym(3)] }];
    let t = FactTable { names, rows };
    let o = tally(&[
        run(0, vec![1], Some(1), vec![hit(vec![(2, Arg::Sym(3))], false, "cat has no location")]),
        run(0, vec![], None, vec![hit(vec![(2, Arg::Fact(0)), (2, Arg::Int(7))], false, "")]),
    ]);
    let (mut events, _) = Events::to(Level::Normal);
    let lines = narrate(&mut events, &t, &o);
    assert_eq!(
        lines,
        vec![
            "{\"e\": \"owe\", \"n\": 1, \"rule\": \"fill\", \"activator\": [\"pet-loc\"], \"relation\": \"pet-loc\", \"bindings\": [[\"?x\", \"cat\"]], \"why\": \"cat has no location\"}".to_string(),
            "{\"e\": \"owe\", \"n\": 2, \"rule\": \"fill\", \"activator\": [], \"relation\": \"\", \"bindings\": [[\"?x\", \"(owner cat)\"], [\"?x\", \"7\"]], \"why\": \"\"}".to_string(),
        ]
    );
    assert_eq!(events.seq(), 3);
    let mut quiet = Events::off();
    assert!(narrate(&mut quiet, &t, &o).is_empty());
    assert_eq!(quiet.seq(), 0);
}
