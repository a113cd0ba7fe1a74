use ein_infer::canon::{distinct_by_state, state_digest, state_key};

#[test]
fn a_state_key_is_the_sorted_fact_list() {
    assert_eq!(state_key(&vec![7, 3, 9, 1]), vec![1, 3, 7, 9]);
    assert_eq!(state_key(&vec![]), Vec::<u32>::new());
}

#[test]
fn two_branches_with_one_state_are_one_item() {
    let keys = vec![vec![1, 2], vec![3], vec![1, 2], vec![], vec![3], vec![]];
    assert_eq!(distinct_by_state(&keys), vec![0, 1, 3]);
    assert_eq!(distinct_by_state(&Vec::new()), Vec::<usize>::new());
}

#[test]
fn a_digest_is_a_function_of_the_key() {
    let a = state_key(&vec![5, 2, 8]);
    let b = state_key(&vec![8, 5, 2]);
    assert_eq!(state_digest(&a), state_digest(&b));
}
