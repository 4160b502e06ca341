use rusty_words::permutation::{
    from_shuffle_map, identity_permutation, is_valid_permutation, random_permutation,
    to_shuffle_map,
};
use std::collections::HashMap;

#[test]
fn the_identity_leaves_every_word_in_place() {
    assert_eq!(identity_permutation(0), Vec::<usize>::new());
    assert_eq!(identity_permutation(4), vec![0, 1, 2, 3]);
}

#[test]
fn permutations_are_told_from_other_vectors() {
    assert!(is_valid_permutation(&vec![]));
    assert!(is_valid_permutation(&vec![0]));
    assert!(is_valid_permutation(&vec![2, 0, 1]));
    assert!(!is_valid_permutation(&vec![1]));
    assert!(!is_valid_permutation(&vec![0, 0]));
    assert!(!is_valid_permutation(&vec![0, 1, 3]));
    assert!(!is_valid_permutation(&vec![2, 1, 2]));
    assert!(!is_valid_permutation(&vec![usize::MAX, 0]));
}

#[test]
fn a_random_order_is_a_bijection() {
    for n in [0usize, 1, 2, 3, 10, 11, 57, 300] {
        let order = random_permutation(n);
        assert_eq!(order.len(), n);
        assert!(is_valid_permutation(&order));
        let mut sorted = order.clone();
        sorted.sort();
        assert_eq!(sorted, identity_permutation(n));
    }
}

#[test]
fn a_random_order_is_not_always_the_order_of_the_list() {
    let identity = identity_permutation(50);
    let mut moved = false;
    for _ in 0..8 {
        if random_permutation(50) != identity {
            moved = true;
        }
    }
    assert!(moved);
}

#[test]
fn an_order_is_stored_as_a_map_from_position_to_index() {
    let map = to_shuffle_map(&vec![2, 0, 1]);
    let mut expected = HashMap::new();
    expected.insert(0, 2);
    expected.insert(1, 0);
    expected.insert(2, 1);
    assert_eq!(map, expected);
    assert!(to_shuffle_map(&vec![]).is_empty());
}

#[test]
fn a_stored_order_is_read_back_as_it_was() {
    for order in [vec![], vec![0], vec![3, 1, 0, 2], identity_permutation(12)] {
        assert_eq!(from_shuffle_map(&to_shuffle_map(&order), order.len()), order);
    }
}

#[test]
fn a_position_that_the_map_leaves_out_keeps_its_index() {
    let mut map = HashMap::new();
    map.insert(1, 2);
    map.insert(2, 1);
    map.insert(7, 0);
    assert_eq!(from_shuffle_map(&map, 4), vec![0, 2, 1, 3]);
    assert_eq!(from_shuffle_map(&HashMap::new(), 3), vec![0, 1, 2]);
    assert_eq!(from_shuffle_map(&map, 0), Vec::<usize>::new());
}
