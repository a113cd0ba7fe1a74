use ein_infer::facts::{Arg, FactTable, Row};
use ein_infer::sanity::{check_commutativity, parent};

/// 0 (p a), 1 (p b), 2 (q 7 (p a)), 3 (r)
fn table() -> FactTable {
    let names = ["p", "a", "b", "q", "r", "it's"].iter().map(|s| s.to_string()).collect();
    let rows = vec![
        Row { rel: 0, args: vec![Arg::Sym(1)] },
        Row { rel: 0, args: vec![Arg::Sym(2)] },
        Row { rel: 3, args: vec![Arg::Int(7), Arg::Fact(0)] },
        Row { rel: 4, args: vec![] },
        Row { rel: 0, args: vec![Arg::Sym(5)] },
    ];
    FactTable { names, rows }
}

#[test]
fn a_parent_leaves_out_one_member() {
    assert_eq!(parent(&[4, 5, 6], 0), vec![5, 6]);
    assert_eq!(parent(&[4, 5, 6], 1), vec![4, 6]);
    assert_eq!(parent(&[4, 5, 6], 2), vec![4, 5]);
}

#[test]
fn a_singleton_or_a_dead_pre_direct_path_is_not_checked() {
    let t = table();
    let d = vec![0, 1];
    assert!(check_commutativity(&t, &[0], Some(&d), &[Some(vec![9])]).is_none());
    assert!(check_commutativity(&t, &[0, 1], None, &[]).is_none());
}

#[test]
fn agreeing_and_dead_parents_report_nothing() {
    let t = table();
    let direct = vec![3, 1, 0];
    let reached = vec![Some(vec![0, 1, 3]), None];
    assert!(check_commutativity(&t, &[0, 1], Some(&direct), &reached).is_none());
}

#[test]
fn a_disagreeing_parent_is_reported_with_its_key() {
    let t = table();
    let direct = vec![3, 1, 0];
    let reached = vec![Some(vec![0, 1, 3]), Some(vec![2, 1, 0])];
    let e = check_commutativity(&t, &[0, 2], Some(&direct), &reached).expect("a mismatch");
    assert_eq!(e.commitment, vec![0, 2]);
    assert_eq!(e.direct_state_key, vec![0, 1, 3]);
    assert_eq!(e.parent_state_keys, vec![(vec![0], vec![0, 1, 2])]);
    let m = e.message();
    assert!(
        m.starts_with("Saturation commutativity violated for (('p', ('a',)), ('q', (7, ('p', ('a',)))))\n  direct state_key digest = 0x"),
        "{m}"
    );
    let tail = m.split("\n  parent paths:\n").nth(1).expect("the parent paths");
    assert!(tail.starts_with("    (('p', ('a',)),) -> 0x"), "{tail}");
    assert!(tail[tail.find("0x").unwrap() + 2..].chars().all(|c| c.is_ascii_hexdigit() && !c.is_ascii_uppercase()));
}

#[test]
fn a_name_with_a_quote_is_reprd_in_double_quotes() {
    let t = table();
    let direct = vec![4, 3];
    let reached = vec![Some(vec![4]), Some(vec![4, 3])];
    let e = check_commutativity(&t, &[4, 3], Some(&direct), &reached).expect("a mismatch");
    assert!(e.message().starts_with("Saturation commutativity violated for (('p', (\"it's\",)), ('r', ()))\n"), "{}", e.message());
    assert_eq!(e.parent_state_keys, vec![(vec![3], vec![4])]);
}
