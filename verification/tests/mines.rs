use puzzles::mines::BoardError;
use puzzles::mines::MineBoard;

fn picture(rows: &[&str]) -> Vec<Vec<u8>> {
    rows.iter().map(|r| r.as_bytes().to_vec()).collect()
}

#[test]
fn mine_at_respects_bounds_and_mines() {
    let b = MineBoard::from_rows(&picture(&["*..", "..*"])).unwrap();
    assert!(b.mine_at(0, 0));
    assert!(b.mine_at(1, 2));
    assert!(!b.mine_at(0, 1));
    assert!(!b.mine_at(-1, 0));
    assert!(!b.mine_at(0, -1));
    assert!(!b.mine_at(2, 0));
    assert!(!b.mine_at(0, 3));
}

#[test]
fn mines_around_counts_eight_neighbours() {
    let b = MineBoard::from_rows(&picture(&["*.*", "...", "*.*"])).unwrap();
    assert_eq!(b.mines_around(1, 1), 4);
    assert_eq!(b.mines_around(0, 1), 2);
    assert_eq!(b.mines_around(1, 0), 2);
    let empty = MineBoard::from_rows(&picture(&["...", "..."])).unwrap();
    assert_eq!(empty.mines_around(0, 0), 0);
}

#[test]
fn full_grid_reports_mines_and_counts() {
    let b = MineBoard::from_rows(&picture(&["*..", ".*.", "..."])).unwrap();
    let grid = b.adjacent_bomb_counts();
    assert_eq!(grid, vec![vec![-1, 2, 1], vec![2, -1, 1], vec![1, 1, 1],]);
}

#[test]
fn crowded_grid_counts() {
    let b = MineBoard::from_rows(&picture(&["**", "**"])).unwrap();
    let grid = b.adjacent_bomb_counts();
    assert_eq!(grid, vec![vec![-1, -1], vec![-1, -1]]);
    let lone = MineBoard::from_rows(&picture(&[".*."])).unwrap();
    assert_eq!(lone.adjacent_bomb_counts(), vec![vec![1, -1, 1]]);
}

#[test]
fn uneven_rows_are_rejected() {
    let r = MineBoard::from_rows(&picture(&["..", "..."]));
    assert!(matches!(r, Err(BoardError::UnevenRows)));
}

#[test]
fn too_many_rows_are_rejected() {
    let rows: Vec<Vec<u8>> = vec![vec![b'.']; 65536];
    let r = MineBoard::from_rows(&rows);
    assert!(matches!(r, Err(BoardError::TooManyRows)));
}

#[test]
fn too_many_columns_are_rejected() {
    let rows: Vec<Vec<u8>> = vec![vec![b'.'; 65536]];
    let r = MineBoard::from_rows(&rows);
    assert!(matches!(r, Err(BoardError::TooManyColumns)));
}
