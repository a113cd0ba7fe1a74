use ein_infer::contradiction::{contradicts, detect, has_contradiction, FactBase, Kind, Shape};

/// `(p one) (not (p one)) (false) (p two) (not (p three))`, with `(p three)`
/// interned as the negation's argument but never asserted.
fn mixed() -> FactBase {
    FactBase {
        shapes: vec![
            Shape::Positive,      // 0 (p one)
            Shape::Not(Some(0)),  // 1 (not (p one))
            Shape::False,         // 2 (false)
            Shape::Positive,      // 3 (p two)
            Shape::Positive,      // 4 (p three)
            Shape::Not(Some(4)),  // 5 (not (p three))
        ],
        held: vec![true, true, true, true, false, true],
        falses: vec![2],
        negations: vec![1, 5],
    }
}

#[test]
fn a_pair_and_a_direct_are_both_found_direct_first() {
    let kb = mixed();
    let found = detect(&kb);
    assert_eq!(found.len(), 2, "{found:?}");
    assert_eq!(found[0].kind, Kind::Direct);
    assert_eq!(found[0].positive, None);
    assert_eq!(found[1].kind, Kind::Pair);
    assert!(has_contradiction(&kb));
}

#[test]
fn the_incremental_check_agrees_with_the_scan() {
    // (p one) (not (p one)) (p two)
    let kb = FactBase {
        shapes: vec![Shape::Positive, Shape::Not(Some(0)), Shape::Positive],
        held: vec![true, true, true],
        falses: vec![],
        negations: vec![1],
    };
    let flagged: Vec<bool> = (0..3).map(|f| contradicts(&kb, f)).collect();
    assert_eq!(
        flagged.iter().filter(|x| **x).count(),
        2,
        "`(p one)` and `(not (p one))` each create the pair"
    );
    assert!(detect(&kb).len() == 1, "the pair is one contradiction");
}

#[test]
fn a_consistent_kb_reports_nothing() {
    // (p one) (not (p two)), with (p two) interned but not held
    let kb = FactBase {
        shapes: vec![Shape::Positive, Shape::Positive, Shape::Not(Some(1))],
        held: vec![true, false, true],
        falses: vec![],
        negations: vec![2],
    };
    assert!(detect(&kb).is_empty());
    assert!(!has_contradiction(&kb));
    for f in [0u32, 2] {
        assert!(!contradicts(&kb, f));
    }
}

#[test]
fn witnesses_are_the_positive_of_a_pair_and_the_false_fact_itself() {
    let found = detect(&mixed());
    assert_eq!(found[0].witness(), 2);
    assert_eq!(found[1].witness(), 0);
    assert_eq!(found[1].negative, 1);
    assert_eq!(Kind::Pair.as_str(), "pair");
    assert_eq!(Kind::Direct.as_str(), "direct");
}

#[test]
fn a_negation_without_a_fact_argument_pairs_with_nothing() {
    let kb = FactBase {
        shapes: vec![Shape::Not(None), Shape::False],
        held: vec![true, false],
        falses: vec![],
        negations: vec![0],
    };
    assert!(detect(&kb).is_empty());
    assert!(!contradicts(&kb, 0));
    assert!(contradicts(&kb, 1), "a (false) fact is a contradiction by itself");
}
