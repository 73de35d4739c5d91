use puzzles::chain::ChainFixer;

fn run(v: Vec<(i32, i32)>) -> Vec<(i32, i32)> {
    let mut fixer = ChainFixer::from(v);
    let mut out = Vec::new();
    while let Some(pair) = fixer.next() {
        out.push(pair);
    }
    out
}

#[test]
fn mends_the_broken_link() {
    let out = run(vec![(1, 1), (1, 2), (3, 4)]);
    assert_eq!(out, vec![(1, 1), (1, 2), (2, 3), (3, 4)]);
}

#[test]
fn leaves_a_sound_chain_alone() {
    let out = run(vec![(1, 2), (2, 3), (3, 1)]);
    assert_eq!(out, vec![(1, 2), (2, 3), (3, 1)]);
}

#[test]
fn mends_every_gap() {
    let out = run(vec![(0, 5), (7, 7), (9, 0)]);
    assert_eq!(out, vec![(0, 5), (5, 7), (7, 7), (7, 9), (9, 0)]);
}

#[test]
fn consecutive_pairs_always_link() {
    let out = run(vec![(4, 9), (2, 2), (2, 8), (1, 4)]);
    for w in out.windows(2) {
        assert_eq!(w[0].1, w[1].0);
    }
}

#[test]
fn empty_and_single_chains() {
    assert_eq!(run(vec![]), vec![]);
    assert_eq!(run(vec![(3, 7)]), vec![(3, 7)]);
}
