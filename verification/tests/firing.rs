use ein_infer::facts::{Arg, FactTable};
use ein_infer::firing::{build_fact, fire, FireError};
use ein_infer::match_::{Found, Slot};

/// Names: 0 p, 1 q, 2 a, 3 b.
fn table() -> FactTable {
    FactTable { names: ["p", "q", "a", "b"].iter().map(|s| s.to_string()).collect(), rows: vec![] }
}

/// `(p ?x (q ?y))`.
fn template() -> Slot {
    Slot::Nested {
        rel: 0,
        slots: vec![Slot::Reg(0), Slot::Nested { rel: 1, slots: vec![Slot::Reg(1)] }],
    }
}

fn found(regs: Vec<Option<Arg>>) -> Found {
    Found { disjunct: 0, regs, trail: vec![0, 1], premises: vec![7] }
}

/// The nested fact is interned first, then its holder; a second firing of
/// the same binding writes nothing new.
#[test]
fn a_conclusion_interns_its_nested_facts_first() {
    let mut t = table();
    let regs = vec![Some(Arg::Sym(2)), Some(Arg::Sym(3))];
    assert_eq!(build_fact(&mut t, &regs, &template()), Ok(1));
    assert_eq!(t.rows[0].rel, 1);
    assert_eq!(t.rows[0].args, vec![Arg::Sym(3)]);
    assert_eq!(t.rows[1].args, vec![Arg::Sym(2), Arg::Fact(0)]);
    let mut kb: Vec<u32> = vec![];
    let f = fire(&mut t, &mut kb, &vec![template()], &found(regs.clone())).unwrap().unwrap();
    assert_eq!(f.derived, vec![1]);
    assert_eq!(f.premises, vec![7]);
    assert_eq!(kb, vec![1]);
    let again = fire(&mut t, &mut kb, &vec![template(), template()], &found(regs)).unwrap().unwrap();
    assert_eq!(again.derived, vec![1, 1]);
    assert_eq!(kb, vec![1]);
    assert_eq!(t.rows.len(), 2);
}

#[test]
fn an_unbuildable_template_says_why() {
    let mut t = table();
    assert_eq!(
        build_fact(&mut t, &vec![Some(Arg::Sym(2))], &Slot::Reg(0)),
        Err(FireError::NotAFact("expected NestedPattern at :assert top-level, got Var".to_string()))
    );
    assert_eq!(build_fact(&mut t, &vec![None, Some(Arg::Sym(3))], &template()), Err(FireError::UnboundVar(0)));
    let opaque = Slot::Nested { rel: 0, slots: vec![Slot::Opaque] };
    assert_eq!(
        build_fact(&mut t, &vec![], &opaque),
        Err(FireError::NotAFact("an unrecognised `:assert` slot has no value to store".to_string()))
    );
    let mut kb: Vec<u32> = vec![];
    assert!(matches!(fire(&mut t, &mut kb, &vec![], &found(vec![])), Ok(None)));
    assert!(t.rows.is_empty());
}
