use puzzles::board::swap;
use puzzles::board::Arrangement;
use puzzles::search::get_best;
use puzzles::search::PathTable;
use puzzles::search::ScoreTable;
use puzzles::search::SeenSet;

fn solved() -> Arrangement {
    Arrangement::new([0, 1, 2, 3, 4, 5, 6, 7, 8, 9, 10, 11, 12, 13, 14, 15]).unwrap()
}

#[test]
fn get_best_picks_the_lowest_score() {
    let a = solved();
    let b = swap(a, (15, 14));
    let c = swap(b, (15, 10));
    let mut frontier = ScoreTable::new();
    assert!(frontier.is_empty());
    frontier.insert(a, 7);
    frontier.insert(b, 2);
    frontier.insert(c, 5);
    assert!(!frontier.is_empty());
    assert_eq!(get_best(&frontier), b);
    frontier.remove(&b);
    assert_eq!(get_best(&frontier), c);
    assert!(frontier.contains(&a));
    assert!(!frontier.contains(&b));
}

#[test]
fn path_table_keeps_and_replaces_entries() {
    let a = solved();
    let b = swap(a, (15, 14));
    let mut paths = PathTable::new();
    assert!(paths.get(&a).is_none());
    paths.insert(a, vec![]);
    paths.insert(b, vec![14, 10]);
    assert_eq!(paths.get(&a).unwrap(), Vec::<usize>::new());
    assert_eq!(paths.get(&b).unwrap(), vec![14, 10]);
    paths.set(&b, vec![14]);
    assert_eq!(paths.get(&b).unwrap(), vec![14]);
}

#[test]
fn seen_set_remembers_insertions() {
    let a = solved();
    let b = swap(a, (15, 14));
    let mut seen = SeenSet::new();
    assert!(!seen.contains(&a));
    seen.insert(a);
    assert!(seen.contains(&a));
    assert!(!seen.contains(&b));
}
