use ein_infer::apriori::{
    apriori_prefix_join, canonicalise, cmp_set, filter_candidate, generate_layer, is_subset,
    layer_1, order_lex, order_mode, OrderMode,
};
use ein_infer::hypgen::ScoreError;
use rustc_hash::FxHashSet;
use std::cmp::Ordering;

/// The join emits each size-(k+1) set once, from the shared prefix, and
/// breaks rather than scanning on.
#[test]
fn the_prefix_join_emits_each_superset_once() {
    let (a, b, c) = (1u32, 2, 3);
    let prev = vec![vec![a, b], vec![a, c], vec![b, c]];
    let out = apriori_prefix_join(&prev);
    assert_eq!(out, vec![vec![a, b, c]]);
}

/// Singletons come out in content order, whatever order the set holds them
/// in.
#[test]
fn layer_1_orders_by_content_not_by_interning_order() {
    let (alpha, zeta) = (1u32, 26u32);
    let alive: FxHashSet<u32> = [zeta, alpha].into_iter().collect();
    assert_eq!(layer_1(&alive), vec![vec![alpha], vec![zeta]]);
}

#[test]
fn an_unknown_order_mode_reports_ein_pys_text() {
    assert_eq!(
        order_mode("nonsense"),
        Err(ScoreError::Unknown(
            "unknown lattice_order mode: 'nonsense' (expected 'lex' or \
             'score-sum')"
                .to_string()
        ))
    );
    assert_eq!(order_mode("lex"), Ok(OrderMode::Lex));
    assert_eq!(order_mode("score-sum"), Ok(OrderMode::ScoreSum));
}

#[test]
fn an_order_mode_name_is_quoted_the_way_repr_quotes_it() {
    assert_eq!(
        order_mode("it's"),
        Err(ScoreError::Unknown(
            "unknown lattice_order mode: \"it's\" (expected 'lex' or 'score-sum')".to_string()
        ))
    );
    assert_eq!(
        order_mode("a'\"\n"),
        Err(ScoreError::Unknown(
            "unknown lattice_order mode: 'a\\'\"\\n' (expected 'lex' or 'score-sum')".to_string()
        ))
    );
}

#[test]
fn canonicalise_sorts_and_dedups() {
    assert_eq!(canonicalise(vec![5, 1, 5, 3, 1]), vec![1, 3, 5]);
    assert_eq!(canonicalise(vec![]), Vec::<u32>::new());
}

#[test]
fn sets_compare_element_wise_then_by_length() {
    assert_eq!(cmp_set(&[1, 2], &[1, 3]), Ordering::Less);
    assert_eq!(cmp_set(&[1, 2], &[1, 2, 0]), Ordering::Less);
    assert_eq!(cmp_set(&[2], &[1, 9]), Ordering::Greater);
    assert_eq!(cmp_set(&[4, 4], &[4, 4]), Ordering::Equal);
    assert_eq!(
        order_lex(&[vec![2], vec![1, 5], vec![1]]),
        vec![vec![1], vec![1, 5], vec![2]]
    );
}

#[test]
fn the_join_sorts_its_layer_first() {
    let prev = vec![vec![2, 4], vec![1, 3], vec![2, 3], vec![1, 2]];
    assert_eq!(apriori_prefix_join(&prev), vec![vec![1, 2, 3], vec![2, 3, 4]]);
    assert_eq!(apriori_prefix_join(&[vec![1], vec![2], vec![3]]), vec![
        vec![1, 2],
        vec![1, 3],
        vec![2, 3]
    ]);
}

#[test]
fn a_candidate_survives_only_alive_and_clear_of_clauses() {
    let alive: FxHashSet<u32> = [1, 2, 3, 4].into_iter().collect();
    let nogoods = vec![vec![2, 4]];
    assert!(filter_candidate(&[1, 2, 3], &alive, &nogoods));
    assert!(!filter_candidate(&[2, 3, 4], &alive, &nogoods));
    assert!(!filter_candidate(&[1, 5], &alive, &nogoods));
    assert!(is_subset(&[2, 4], &[1, 2, 3, 4]));
    assert!(!is_subset(&[2, 5], &[1, 2, 3, 4]));
    assert!(is_subset(&[], &[]));
}

#[test]
fn a_layer_is_the_filtered_join() {
    let alive: FxHashSet<u32> = [1, 2, 3].into_iter().collect();
    let nogoods = vec![vec![1, 3]];
    let prev = vec![vec![1], vec![2], vec![3], vec![4]];
    assert_eq!(generate_layer(&prev, &alive, &nogoods), vec![vec![1, 2], vec![2, 3]]);
}

/// Every same-prefix pair is joined once, and the joins come out in tuple
/// order whatever order the layer came in.
#[test]
fn every_same_prefix_pair_is_joined_once_in_order() {
    let prev = vec![vec![2, 3], vec![1, 4], vec![1, 2], vec![2, 5], vec![1, 3]];
    assert_eq!(
        apriori_prefix_join(&prev),
        vec![vec![1, 2, 3], vec![1, 2, 4], vec![1, 3, 4], vec![2, 3, 5]]
    );
}
