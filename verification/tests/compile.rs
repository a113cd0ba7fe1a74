use ein_infer::compile::{relation, slot, slots, Term};
use ein_infer::facts::Arg;
use ein_infer::match_::{Slot, Step};

/// Names: 0 edge, 1 a, 2 ?x, 3 ?y, 4 ?R.
fn names() -> Vec<String> {
    ["edge", "a", "x", "y", "R"].iter().map(|s| s.to_string()).collect()
}

#[test]
fn a_free_variable_takes_the_next_register_once() {
    let mut space: Vec<u32> = Vec::new();
    let seed: Vec<(u32, Arg)> = vec![];
    let ts = vec![Term::Var(2), Term::Var(3), Term::Var(2)];
    let got = slots(&mut space, &seed, &ts).unwrap();
    assert!(matches!(got[..], [Slot::Reg(0), Slot::Reg(1), Slot::Reg(0)]));
    assert_eq!(space, vec![2, 3]);
}

#[test]
fn a_bound_variable_becomes_its_value() {
    let mut space: Vec<u32> = Vec::new();
    let seed = vec![(2u32, Arg::Int(7)), (2u32, Arg::Int(9))];
    let s = slot(&mut space, &seed, &Term::Var(2)).unwrap();
    assert!(matches!(s, Slot::Const(Arg::Int(7))), "the first binding wins");
    assert!(space.is_empty());
    assert!(matches!(slot(&mut space, &seed, &Term::Atom(1)).unwrap(), Slot::Const(Arg::Sym(1))));
    assert!(matches!(slot(&mut space, &seed, &Term::Int(-3)).unwrap(), Slot::Const(Arg::Int(-3))));
    assert!(matches!(slot(&mut space, &seed, &Term::Other).unwrap(), Slot::Opaque));
}

#[test]
fn a_form_with_a_named_head_is_a_nested_pattern() {
    let mut space: Vec<u32> = Vec::new();
    let seed = vec![(4u32, Arg::Sym(0))];
    let inner = Term::Form { head: Box::new(Term::Var(4)), args: vec![Term::Var(2), Term::KwPair] };
    match slot(&mut space, &seed, &inner).unwrap() {
        Slot::Nested { rel, slots } => {
            assert_eq!(rel, 0, "?R is bound to edge");
            assert!(matches!(slots[..], [Slot::Reg(0), Slot::Opaque]), "nested args keep a key pair");
        },
        other => panic!("not nested: {other:?}"),
    }
    let unbound = Term::Form { head: Box::new(Term::Var(3)), args: vec![Term::Var(2)] };
    assert!(matches!(slot(&mut space, &seed, &unbound).unwrap(), Slot::Opaque));
}

#[test]
fn a_premise_skips_key_pairs_and_names_its_relation() {
    let mut space: Vec<u32> = Vec::new();
    let seed: Vec<(u32, Arg)> = vec![];
    let args = vec![Term::Var(2), Term::KwPair, Term::Atom(1)];
    match relation(&mut space, &seed, &names(), &Term::Atom(0), &args).unwrap() {
        Step::Rel { rel, slots } => {
            assert_eq!(rel, 0);
            assert!(matches!(slots[..], [Slot::Reg(0), Slot::Const(Arg::Sym(1))]));
        },
        other => panic!("not a relation step: {other:?}"),
    }
}

#[test]
fn an_unbound_relation_head_is_refused() {
    let mut space: Vec<u32> = Vec::new();
    let seed: Vec<(u32, Arg)> = vec![];
    let err = relation(&mut space, &seed, &names(), &Term::Var(4), &vec![Term::Var(2)]).unwrap_err();
    assert!(err.0.starts_with("unbound relation head ?R in a premise"), "{}", err.0);
    assert!(space.is_empty(), "no argument was lowered");
}

#[test]
fn the_register_file_has_room_for_256_variables() {
    let mut space: Vec<u32> = (0..256).collect();
    let seed: Vec<(u32, Arg)> = vec![];
    assert!(matches!(slot(&mut space, &seed, &Term::Var(5)).unwrap(), Slot::Reg(5)));
    let err = slot(&mut space, &seed, &Term::Var(1000)).unwrap_err();
    assert!(err.0.starts_with("more than 256 distinct variables in one `:match`"));
    assert_eq!(space.len(), 256);
}
