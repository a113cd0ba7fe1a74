use ein_infer::facts::FactTable;
use ein_infer::hrule::{hrule_activators, HruleDecl, Hrules, PlanMatches, QueryNode};

fn atom(s: &str) -> QueryNode {
    QueryNode::Atom(s.to_string())
}

fn form(head: QueryNode, args: Vec<QueryNode>) -> QueryNode {
    QueryNode::Form(Box::new(head), args)
}

fn pair(key: &str, value: QueryNode) -> QueryNode {
    QueryNode::Pair(Box::new(QueryNode::Keyword(key.to_string())), Box::new(value))
}

/// 0 guess, 1 pet-loc, 2 Pet, 3 nation-loc, 4 Nation, 5 fill
fn table() -> FactTable {
    let names = ["guess", "pet-loc", "Pet", "nation-loc", "Nation", "fill"]
        .iter()
        .map(|s| s.to_string())
        .collect();
    FactTable { names, rows: vec![] }
}

#[test]
fn every_hrules_pair_contributes_its_tuples() {
    let t = table();
    let pairs = vec![
        pair("hrules", form(atom("guess"), vec![form(atom("pet-loc"), vec![atom("Pet")])])),
        pair("limit", form(atom("guess"), vec![form(atom("Nation"), vec![])])),
        QueryNode::Other,
        pair(
            "hrules",
            form(
                atom("guess"),
                vec![form(atom("nation-loc"), vec![atom("Nation"), atom("unknown"), QueryNode::Other]), atom("Pet")],
            ),
        ),
        pair("hrules", form(atom("fill"), vec![])),
        pair("hrules", form(atom("nobody"), vec![form(atom("Pet"), vec![])])),
    ];
    let m = hrule_activators(&t, &pairs);
    assert_eq!(m.len(), 1, "an hrule with no items gets no entry, an unknown one none");
    assert_eq!(m.get(&0), Some(&vec![vec![1, 2], vec![3, 4]]));
    assert!(hrule_activators(&t, &[]).is_empty());
}

#[test]
fn the_plan_list_skips_arity_mismatched_activators() {
    let t = table();
    let pairs = vec![pair(
        "hrules",
        form(
            atom("guess"),
            vec![form(atom("pet-loc"), vec![atom("Pet")]), form(atom("nation-loc"), vec![]), form(atom("nation-loc"), vec![atom("Nation")])],
        ),
    )];
    let m = hrule_activators(&t, &pairs);
    let hrules = [
        HruleDecl { name: 5, params: 0 },
        HruleDecl { name: 0, params: 2 },
        HruleDecl { name: 1, params: 1 },
    ];
    let h = Hrules::new(&hrules, &m);
    let got: Vec<(usize, Option<Vec<u32>>)> = h.activations.iter().map(|a| (a.hrule, a.args.clone())).collect();
    assert_eq!(got, vec![(0, None), (1, Some(vec![1, 2])), (1, Some(vec![3, 4]))]);
}

#[test]
fn candidates_come_from_fact_templates_that_built() {
    let h = Hrules::new(&[], &hrule_activators(&table(), &[]));
    let built = vec![
        PlanMatches { template_is_fact: true, facts: vec![Some(4), None, Some(2)] },
        PlanMatches { template_is_fact: false, facts: vec![Some(9)] },
        PlanMatches { template_is_fact: true, facts: vec![Some(4)] },
    ];
    assert_eq!(h.candidates(&built), vec![4, 2, 4]);
    assert!(h.candidates(&[]).is_empty());
}
