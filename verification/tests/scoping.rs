use ein_infer::facts::{Arg, FactTable, Row};
use ein_infer::hrule::QueryNode;
use ein_infer::hypgen::{closed_relations, eligible_relations, query_relations, Ladder, HYPOTHESIS_RELATIONS, NO_HYPOTHESIS};
use ein_infer::oblgen::RelationDecl;

fn atom(s: &str) -> QueryNode {
    QueryNode::Atom(s.to_string())
}

fn pair(key: &str, value: QueryNode) -> QueryNode {
    QueryNode::Pair(Box::new(QueryNode::Keyword(key.to_string())), Box::new(value))
}

/// Names: 0 pet-loc, 1 nation-loc, 2 drink-loc, 3 `__closed__`, 4 House.
fn table() -> FactTable {
    let names = ["pet-loc", "nation-loc", "drink-loc", "__closed__", "House"].iter().map(|s| s.to_string()).collect();
    let rows = vec![
        Row { rel: 3, args: vec![Arg::Sym(2)] },
        Row { rel: 3, args: vec![Arg::Sym(1), Arg::Sym(0)] },
        Row { rel: 3, args: vec![Arg::Int(1)] },
    ];
    FactTable { names, rows }
}

fn sorted(s: &std::collections::HashSet<u32, rustc_hash::FxBuildHasher>) -> Vec<u32> {
    let mut v: Vec<u32> = s.iter().copied().collect();
    v.sort();
    v
}

#[test]
fn the_first_keyword_wins_and_an_empty_list_is_unrestricted() {
    let t = table();
    let pairs = vec![
        pair("no-hypothesis", QueryNode::Form(Box::new(atom("pet-loc")), vec![atom("drink-loc"), QueryNode::Other])),
        pair(HYPOTHESIS_RELATIONS, QueryNode::Form(Box::new(atom("misspelled")), vec![])),
        pair(HYPOTHESIS_RELATIONS, atom("pet-loc")),
    ];
    assert_eq!(sorted(&query_relations(&t, &pairs, NO_HYPOTHESIS).unwrap()), vec![0, 2]);
    let allowed = query_relations(&t, &pairs, HYPOTHESIS_RELATIONS).expect("a declared name restricts");
    assert!(allowed.is_empty(), "a name nothing interned still excludes everything");
    assert!(query_relations(&t, &pairs, "unknown").is_none());
    let empty = vec![pair(HYPOTHESIS_RELATIONS, QueryNode::Other)];
    assert!(query_relations(&t, &empty, HYPOTHESIS_RELATIONS).is_none());
}

#[test]
fn only_a_single_name_argument_marks_a_relation_closed() {
    let t = table();
    assert_eq!(sorted(&closed_relations(&t, &[0, 1, 2], Some(3))), vec![2]);
    assert!(closed_relations(&t, &[1, 2], Some(3)).is_empty());
    assert!(closed_relations(&t, &[0], None).is_empty());
}

#[test]
fn the_eligible_set_follows_the_ladder() {
    let t = table();
    let kb = [0u32];
    let decl = |name: u32, arity: usize| RelationDecl { name, arity };
    let declared = vec![decl(0, 2), decl(1, 2), decl(2, 2), decl(4, 0)];
    let pairs = vec![pair(NO_HYPOTHESIS, atom("nation-loc"))];
    let blind = Ladder { hrules: None, obligations: None, declared: declared.clone() };
    assert_eq!(sorted(&eligible_relations(&t, &kb, &pairs, &blind)), vec![0], "closed, excluded and unsigned drop out");
    let owed = Ladder { hrules: None, obligations: Some(vec![Some(1), None, Some(0), Some(2)]), declared: declared.clone() };
    assert_eq!(sorted(&eligible_relations(&t, &kb, &pairs, &owed)), vec![0]);
    let hr = Ladder { hrules: Some(vec![2, 1]), obligations: Some(vec![Some(0)]), declared };
    assert_eq!(sorted(&eligible_relations(&t, &kb, &pairs, &hr)), vec![1, 2], "hrules are an override, unscoped");
}
