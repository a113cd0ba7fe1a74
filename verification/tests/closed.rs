use ein_infer::closed::emit_closed;
use ein_infer::facts::{Arg, FactTable, Row};
use ein_infer::closed::{closing, CLOSED};
use ein_infer::oblgen::RelationDecl;
use rustc_hash::FxHashSet;

const OPEN_R: u32 = 1;
const SHUT_R: u32 = 2;
const SYMMETRIC: u32 = 3;

/// `(relation open-r T T)`, `(relation shut-r T T)` and a rule that
/// concludes `open-r`: only `shut-r` closes, and closing twice is a no-op.
#[test]
fn a_second_pass_closes_nothing_new() {
    let declared = vec![
        RelationDecl { name: OPEN_R, arity: 2 },
        RelationDecl { name: SHUT_R, arity: 2 },
        RelationDecl { name: SYMMETRIC, arity: 0 },
    ];
    let producible: FxHashSet<u32> = [OPEN_R].into_iter().collect();
    let mut markers: FxHashSet<u32> = FxHashSet::default();
    let first = closing(&declared, &producible, &markers);
    assert_eq!(first, vec![SHUT_R]);
    markers.extend(first.iter().copied());
    assert!(closing(&declared, &producible, &markers).is_empty());
    assert_eq!(markers.len(), 1, "the marker was written twice");
    assert_eq!(CLOSED, "__closed__");
}

#[test]
fn an_authored_marker_is_left_alone() {
    let declared = vec![RelationDecl { name: OPEN_R, arity: 2 }, RelationDecl { name: SHUT_R, arity: 1 }];
    let already: FxHashSet<u32> = [SHUT_R].into_iter().collect();
    assert_eq!(closing(&declared, &FxHashSet::default(), &already), vec![OPEN_R]);
}

/// Names: 0 `__closed__`, 1 open-r, 2 shut-r, 3 kept-r. `kept-r` already
/// carries an authored marker; `open-r` is concluded by a rule. One pass
/// writes exactly `(__closed__ shut-r)`; a second writes nothing.
#[test]
fn emitting_markers_writes_one_fact_per_newly_closed_relation() {
    let names = [CLOSED, "open-r", "shut-r", "kept-r"].iter().map(|s| s.to_string()).collect();
    let rows = vec![Row { rel: 0, args: vec![Arg::Sym(3)] }];
    let mut t = FactTable { names, rows };
    let mut kb: Vec<u32> = vec![0];
    let declared = vec![
        RelationDecl { name: 1, arity: 2 },
        RelationDecl { name: 2, arity: 2 },
        RelationDecl { name: 3, arity: 1 },
    ];
    let producible: FxHashSet<u32> = [1].into_iter().collect();
    let newly = emit_closed(&mut t, &mut kb, 0, &declared, &producible);
    assert_eq!(newly, vec![2]);
    assert_eq!(kb, vec![0, 1]);
    assert_eq!(t.rows.len(), 2);
    assert_eq!(t.rows[1].rel, 0);
    assert_eq!(t.rows[1].args, vec![Arg::Sym(2)]);
    let again = emit_closed(&mut t, &mut kb, 0, &declared, &producible);
    assert!(again.is_empty());
    assert_eq!(kb, vec![0, 1]);
    assert_eq!(t.rows.len(), 2);
}
