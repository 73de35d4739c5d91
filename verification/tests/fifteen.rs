use puzzles::board::adjacent;
use puzzles::board::find_in;
use puzzles::board::manhattan_dist;
use puzzles::board::play_move;
use puzzles::board::position_to_coord;
use puzzles::board::score;
use puzzles::board::swap;
use puzzles::board::Arrangement;
use puzzles::parity::is_odd;
use puzzles::parity::is_solvable;
use puzzles::search::solve;

fn solved_cells() -> [usize; 16] {
    [0, 1, 2, 3, 4, 5, 6, 7, 8, 9, 10, 11, 12, 13, 14, 15]
}

#[test]
fn coordinates_and_distance() {
    assert_eq!(position_to_coord(0), (0, 0));
    assert_eq!(position_to_coord(7), (3, 1));
    assert_eq!(position_to_coord(15), (3, 3));
    assert_eq!(manhattan_dist((0, 0), (3, 3)), 6);
    assert_eq!(manhattan_dist((2, 1), (2, 1)), 0);
    assert_eq!(manhattan_dist((3, 0), (0, 2)), 5);
}

#[test]
fn new_accepts_only_permutations() {
    assert!(Arrangement::new(solved_cells()).is_some());
    let mut dup = solved_cells();
    dup[3] = 5;
    assert!(Arrangement::new(dup).is_none());
    let mut big = solved_cells();
    big[0] = 16;
    assert!(Arrangement::new(big).is_none());
}

#[test]
fn find_in_locates_tiles_but_never_the_blank() {
    let a = Arrangement::new(solved_cells()).unwrap();
    assert_eq!(find_in(a, 3), Some(3));
    assert_eq!(find_in(a, 0), Some(0));
    // Position 15 is occupied by the blank alone.
    assert_eq!(find_in(a, 15), None);
}

#[test]
fn score_of_solved_is_zero_and_only_of_solved() {
    let solved = Arrangement::new(solved_cells()).unwrap();
    assert_eq!(score(&solved), 0);
    // One move away: exactly one tile sits one step from home.
    let scrambled = swap(solved, (15, 14));
    assert_eq!(score(&scrambled), 1);
    // Two far-apart tiles exchanged.
    let mut cells = solved_cells();
    cells.swap(0, 12);
    let far = Arrangement::new(cells).unwrap();
    assert_eq!(score(&far), 6);
    assert!(score(&far) != 0);
}

#[test]
fn adjacent_counts_follow_the_blank_position() {
    // Blank in the bottom-right corner: two legal moves.
    let corner = Arrangement::new(solved_cells()).unwrap();
    assert_eq!(adjacent(corner).len(), 2);
    // Blank on an edge (position 14): three legal moves.
    let edge = swap(corner, (15, 14));
    assert_eq!(adjacent(edge).len(), 3);
    // Blank in the middle (position 10): four legal moves.
    let middle = swap(edge, (15, 10));
    assert_eq!(adjacent(middle).len(), 4);
}

#[test]
fn adjacent_moves_are_involutions() {
    let start = {
        let corner = Arrangement::new(solved_cells()).unwrap();
        swap(swap(corner, (15, 14)), (15, 10))
    };
    let blank = start.at(15);
    let steps = adjacent(start);
    assert!(steps.len() >= 2);
    for (to_move, next) in steps {
        // The blank lands on the swapped position; moving it back to its
        // old position swaps the same two cells again and restores all.
        assert_eq!(next.at(15), to_move);
        let back = play_move(next, blank);
        assert_eq!(back, start);
        assert!(next != start);
    }
}

#[test]
fn adjacent_of_solved_is_the_exact_ordered_pair_list() {
    // Blank at position 15: the up neighbour 11, then the left neighbour
    // 14, in the fixed direction order; moves name board positions.
    let solved = Arrangement::new(solved_cells()).unwrap();
    let steps = adjacent(solved);
    assert_eq!(steps.len(), 2);
    assert_eq!(steps[0].0, 11);
    assert_eq!(steps[1].0, 14);
    assert_eq!(steps[0].1, swap(solved, (15, 11)));
    assert_eq!(steps[1].1, swap(solved, (15, 14)));
    // Pure function of its input: a second call repeats the answer.
    assert_eq!(adjacent(solved), steps);
}

#[test]
fn solvable_is_kept_by_legal_moves() {
    // Walk ten legal moves away from the solved arrangement; solvability
    // must hold the whole way, as each position is reachable.
    let mut a = Arrangement::new(solved_cells()).unwrap();
    assert!(is_solvable(&a));
    for turn in 0..10 {
        let steps = adjacent(a);
        a = steps[turn % steps.len()].1;
        assert!(is_solvable(&a));
    }
}

#[test]
fn permutation_parity_by_cycle_count() {
    // The identity has sixteen one-cycles: even.
    let solved = Arrangement::new(solved_cells()).unwrap();
    assert!(!is_odd(&solved));
    // One transposition: odd.
    let mut cells = solved_cells();
    cells.swap(13, 14);
    assert!(is_odd(&Arrangement::new(cells).unwrap()));
    // A three-cycle on the first three entries: even again.
    let rotated = Arrangement::new([1, 2, 0, 3, 4, 5, 6, 7, 8, 9, 10, 11, 12, 13, 14, 15])
        .unwrap();
    assert!(!is_odd(&rotated));
    // Two disjoint transpositions: even.
    let mut twice = solved_cells();
    twice.swap(0, 1);
    twice.swap(2, 3);
    assert!(!is_odd(&Arrangement::new(twice).unwrap()));
}

#[test]
fn adjacent_transposition_is_unsolvable() {
    // Swap the tiles numbered 14 and 15 (entries 13 and 14) in the solved
    // layout: a single transposition beside an untouched blank can never be
    // undone by legal moves.
    let mut cells = solved_cells();
    cells.swap(13, 14);
    let a = Arrangement::new(cells).unwrap();
    assert!(!is_solvable(&a));
}

#[test]
fn solve_on_solved_returns_no_moves() {
    let solved = Arrangement::new(solved_cells()).unwrap();
    let plan = solve(&solved).expect("the solved arrangement must be solved");
    assert!(plan.is_empty());
}

#[test]
fn solve_undoes_a_single_move() {
    let solved = Arrangement::new(solved_cells()).unwrap();
    let scrambled = swap(solved, (15, 14));
    let plan = solve(&scrambled).expect("a one-move scramble is solvable");
    // One move: swap the blank with the occupant of board position 15.
    assert_eq!(plan, vec![15]);
    let restored = play_move(scrambled, plan[0]);
    assert_eq!(restored, solved);
}

#[test]
fn solve_matches_scramble_parity() {
    // Three legal moves out; any way back must take an odd number of moves.
    let solved = Arrangement::new(solved_cells()).unwrap();
    let mut a = solved;
    for _ in 0..3 {
        a = adjacent(a)[0].1;
    }
    if a == solved {
        panic!("three moves cannot return to the start");
    }
    let plan = solve(&a).expect("a scrambled-by-moves arrangement is solvable");
    assert_eq!(plan.len() % 2, 1);
    // The plan must truly carry the scramble back to the solved arrangement.
    let mut b = a;
    for m in plan {
        b = play_move(b, m);
    }
    assert_eq!(b, solved);
}

#[test]
fn solve_handles_a_longer_scramble() {
    let solved = Arrangement::new(solved_cells()).unwrap();
    let mut a = solved;
    let picks = [0, 1, 1, 0, 2, 1, 0, 1];
    for p in picks {
        let steps = adjacent(a);
        a = steps[p % steps.len()].1;
    }
    let plan = solve(&a).expect("a move-scrambled arrangement is solvable");
    let mut b = a;
    for m in plan {
        b = play_move(b, m);
    }
    assert_eq!(b, solved);
}
