use puzzles::sums::_loop;
use puzzles::sums::gauss_sum;
use puzzles::sums::memoized_recursive;
use puzzles::sums::recursive;
use puzzles::sums::reduce;
use std::collections::HashMap;

#[test]
fn all_five_agree() {
    let numbers: [i64; 4] = [14, -15, 120, 0];
    let mut cache: HashMap<i64, i64> = HashMap::new();
    for k in numbers {
        assert_eq!(_loop(k), reduce(k));
        assert_eq!(_loop(k), recursive(k));
        assert_eq!(_loop(k), memoized_recursive(k, &mut cache));
        assert_eq!(_loop(k), gauss_sum(k));
    }
}

#[test]
fn exact_triangular_values() {
    assert_eq!(_loop(14), 105);
    assert_eq!(reduce(120), 7260);
    assert_eq!(recursive(-15), -120);
    assert_eq!(gauss_sum(0), 0);
    assert_eq!(gauss_sum(1), 1);
    assert_eq!(gauss_sum(-1), -1);
    assert_eq!(gauss_sum(1000), 500500);
}

#[test]
fn memo_table_is_reusable() {
    let mut cache: HashMap<i64, i64> = HashMap::new();
    assert_eq!(memoized_recursive(100, &mut cache), 5050);
    // The table now holds every intermediate sum; asking again, and for
    // anything below, must give the same answers.
    assert_eq!(memoized_recursive(100, &mut cache), 5050);
    assert_eq!(memoized_recursive(40, &mut cache), 820);
    assert_eq!(memoized_recursive(-100, &mut cache), -5050);
}
