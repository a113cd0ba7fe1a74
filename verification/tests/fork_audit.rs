use ein_infer::commitment::Kind;
use ein_infer::facts::{Arg, FactTable, Row};
use ein_infer::fork_audit::{json_list, json_str, record, Entering, NafArg, NafRef, Prov};

#[test]
fn the_audit_escapes_quote_backslash_newline_and_controls() {
    let mut out = String::new();
    json_str("a\"b\\c\nd\u{1}é\t", &mut out);
    assert_eq!(out, "\"a\\\"b\\\\c\\nd\\u0001é\\u0009\"");
    let mut out = String::new();
    json_list(&vec!["x".to_string(), "y z".to_string()], &mut out);
    assert_eq!(out, "[\"x\",\"y z\"]");
    let mut out = String::new();
    json_list(&Vec::new(), &mut out);
    assert_eq!(out, "[]");
}

fn table() -> FactTable {
    // Symbols: p q A B rule1 src
    let names = ["p", "q", "A", "B", "rule1", "src"].iter().map(|s| s.to_string()).collect();
    let rows = vec![
        Row { rel: 1, args: vec![Arg::Sym(3)] },
        Row { rel: 0, args: vec![Arg::Sym(2)] },
        Row { rel: 0, args: vec![Arg::Sym(3), Arg::Int(4)] },
    ];
    FactTable { names, rows }
}

#[test]
fn a_record_sorts_every_fact_list_by_its_text() {
    let t = table();
    let derived = Prov {
        kind: "rule".to_string(),
        rule: Some(4),
        source: None,
        premises: vec![1, 0],
        absent: vec![NafRef {
            rel: 1,
            args: vec![NafArg::Free, NafArg::Value(Arg::Sym(2)), NafArg::Nested { rel: 0, args: vec![NafArg::Free] }],
        }],
    };
    let given = Prov { kind: "source".to_string(), rule: None, source: Some(5), premises: vec![], absent: vec![] };
    let e = Entering {
        commitment: vec![2, 1],
        kind: Kind::DeadPost,
        facts: vec![0, 1],
        core: vec![],
        justifications: vec![vec![derived], vec![given]],
    };
    let line = record(&t, &e);
    assert_eq!(
        line,
        "{\"commitment\":[\"(p A)\",\"(p B 4)\"],\"kind\":\"dead-post\",\"n_facts\":2,\"core\":[],\
         \"state\":[\"(p A)\",\"(q B)\"],\
         \"just\":[[\"(p A)\",[\"source||src||\"]],[\"(q B)\",[\"rule|rule1||(p A) (q B)|(q _ A (p _))\"]]]}\n"
    );
}

#[test]
fn an_entering_is_checked_against_the_table() {
    let t = table();
    let ok = Entering { commitment: vec![0], kind: Kind::Alive, facts: vec![0], core: vec![], justifications: vec![vec![]] };
    assert!(ok.is_ok(&t));
    let unknown = Entering { commitment: vec![9], kind: Kind::Alive, facts: vec![], core: vec![], justifications: vec![] };
    assert!(!unknown.is_ok(&t));
    let short = Entering { commitment: vec![], kind: Kind::Alive, facts: vec![0], core: vec![], justifications: vec![] };
    assert!(!short.is_ok(&t));
}
