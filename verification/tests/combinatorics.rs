use heisenbase::combinatorics::{n_choose_k, rank_combination, unrank_combination};

#[test]
fn binomial_values() {
    assert_eq!(n_choose_k(0, 0), 1);
    assert_eq!(n_choose_k(5, 2), 10);
    assert_eq!(n_choose_k(5, 3), 10);
    assert_eq!(n_choose_k(5, 6), 0);
}

#[test]
fn combination_roundtrip() {
    let n = 8;
    let k = 3;
    for rank in 0..n_choose_k(n, k) {
        let combo = unrank_combination(n, k, rank);
        assert_eq!(combo.len(), k);
        assert!(combo.windows(2).all(|w| w[0] < w[1]));
        let reranked = rank_combination(n, &combo);
        assert_eq!(rank, reranked);
    }
}

#[test]
fn binomial_largest_inputs() {
    assert_eq!(n_choose_k(64, 8), 4_426_165_368);
    assert_eq!(n_choose_k(64, 0), 1);
    assert_eq!(n_choose_k(64, 1), 64);
    assert_eq!(n_choose_k(8, 8), 1);
    assert_eq!(n_choose_k(7, 8), 0);
}

#[test]
fn combinations_come_in_lexicographic_order() {
    assert_eq!(unrank_combination(5, 2, 0), vec![0, 1]);
    assert_eq!(unrank_combination(5, 2, 3), vec![0, 4]);
    assert_eq!(unrank_combination(5, 2, 4), vec![1, 2]);
    assert_eq!(unrank_combination(5, 2, 9), vec![3, 4]);
    assert_eq!(rank_combination(5, &[3, 4]), 9);
    assert_eq!(rank_combination(5, &[]), 0);
    assert_eq!(unrank_combination(5, 0, 0), Vec::<usize>::new());
}

#[test]
fn unrank_then_rank_for_every_rank() {
    for n in 0..10usize {
        for k in 0..=n.min(8) {
            let total = n_choose_k(n, k);
            let mut previous: Option<Vec<usize>> = None;
            for rank in 0..total {
                let combo = unrank_combination(n, k, rank);
                assert_eq!(rank_combination(n, &combo), rank);
                if let Some(before) = previous {
                    assert!(before < combo);
                }
                previous = Some(combo);
            }
        }
    }
}

#[test]
fn binomial_of_many_is_that_of_the_few_left_out() {
    assert_eq!(n_choose_k(64, 8), 4426165368);
    assert_eq!(n_choose_k(64, 56), 4426165368);
    assert_eq!(n_choose_k(64, 64), 1);
    assert_eq!(n_choose_k(20, 17), 1140);
    assert_eq!(n_choose_k(12, 12), 1);
}

#[test]
fn binomial_is_zero_when_more_are_chosen_than_there_are() {
    assert_eq!(n_choose_k(5, 9), 0);
    assert_eq!(n_choose_k(10, 20), 0);
    assert_eq!(n_choose_k(0, 64), 0);
}
