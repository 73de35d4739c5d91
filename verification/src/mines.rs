//! A minesweeper neighbourhood counter.
//!
//! A [`MineBoard`] is built from the rows of a board picture, one byte per
//! cell, a `*` marking a mine.  For every cell the board can tell whether a
//! mine sits there, how many of the eight surrounding cells hold mines, and
//! the full grid of counts with `-1` standing for the mined cells
//! themselves.

use vstd::prelude::*;

verus! {

/// The byte that marks a mine in a board picture.
pub open spec fn mine_byte() -> u8 {
    42u8
}

/// Why a board picture was turned away.
#[derive(Clone, Copy, Debug, PartialEq, Eq)]
pub enum BoardError {
    /// More rows than a 16-bit count can hold.
    TooManyRows,
    /// More columns than a 16-bit count can hold.
    TooManyColumns,
    /// Not all rows are of one length.
    UnevenRows,
}

/// A rectangular minefield.
pub struct MineBoard {
    num_rows: u16,
    num_cols: u16,
    mine_loc: Vec<(u16, u16)>,
}

impl MineBoard {
    /// How many rows the board has.
    pub closed spec fn rows(self) -> int {
        self.num_rows as int
    }

    /// How many columns the board has.
    pub closed spec fn cols(self) -> int {
        self.num_cols as int
    }

    /// Whether a mine sits on the given cell; nothing sits outside the board.
    pub closed spec fn has_mine(self, row: int, c: int) -> bool {
        &&& 0 <= row < self.rows()
        &&& 0 <= c < self.cols()
        &&& exists|i: int|
            0 <= i < self.mine_loc@.len() && self.mine_loc@[i].0 as int == row
                && self.mine_loc@[i].1 as int == c
    }

    /// Builds a board from its rows, one byte per cell; every row must have
    /// the length of the first, and both dimensions must fit 16 bits.
    pub fn from_rows(picture: &Vec<Vec<u8>>) -> (r: Result<MineBoard, BoardError>)
        requires
            picture@.len() > 0,
        ensures
            match r {
                Ok(b) => {
                    &&& picture@.len() <= u16::MAX
                    &&& picture@[0]@.len() <= u16::MAX
                    &&& forall|i: int|
                        0 <= i < picture@.len() ==> (#[trigger] picture@[i])@.len()
                            == picture@[0]@.len()
                    &&& b.rows() == picture@.len()
                    &&& b.cols() == picture@[0]@.len()
                    &&& forall|row: int, c: int|
                        0 <= row < b.rows() && 0 <= c < b.cols() ==> (#[trigger] b.has_mine(row, c)
                            <==> picture@[row]@[c] == mine_byte())
                },
                Err(BoardError::TooManyRows) => picture@.len() > u16::MAX,
                Err(BoardError::TooManyColumns) => picture@.len() <= u16::MAX && picture@[0]@.len()
                    > u16::MAX,
                Err(BoardError::UnevenRows) => {
                    &&& picture@.len() <= u16::MAX
                    &&& picture@[0]@.len() <= u16::MAX
                    &&& exists|i: int|
                        0 <= i < picture@.len() && (#[trigger] picture@[i])@.len()
                            != picture@[0]@.len()
                },
            },
    {
        if picture.len() > 65535 {
            return Err(BoardError::TooManyRows);
        }
        let num_rows: u16 = picture.len() as u16;
        if picture[0].len() > 65535 {
            return Err(BoardError::TooManyColumns);
        }
        let num_cols: u16 = picture[0].len() as u16;
        for i in 0..picture.len()
            invariant
                picture@.len() <= u16::MAX,
                num_cols == picture@[0]@.len(),
                forall|j: int| 0 <= j < i ==> (#[trigger] picture@[j])@.len() == num_cols,
        {
            if picture[i].len() != num_cols as usize {
                return Err(BoardError::UnevenRows);
            }
        }
        let mut mine_loc: Vec<(u16, u16)> = Vec::new();
        for ridx in 0..picture.len()
            invariant
                picture@.len() <= u16::MAX,
                num_cols == picture@[0]@.len(),
                forall|j: int| 0 <= j < picture@.len() ==> (#[trigger] picture@[j])@.len() == num_cols,
                forall|t: int|
                    0 <= t < mine_loc@.len() ==> (#[trigger] mine_loc@[t]).0 < ridx
                        && mine_loc@[t].1 < num_cols && picture@[mine_loc@[t].0 as int]@[mine_loc@[t].1 as int]
                        == mine_byte(),
                forall|row: int, c: int|
                    0 <= row < ridx && 0 <= c < num_cols && picture@[row]@[c] == mine_byte()
                        ==> exists|t: int|
                        0 <= t < mine_loc@.len() && (#[trigger] mine_loc@[t]).0 as int == row
                            && mine_loc@[t].1 as int == c,
        {
            let row_bytes = &picture[ridx];
            for cidx in 0..row_bytes.len()
                invariant
                    picture@.len() <= u16::MAX,
                    num_cols == picture@[0]@.len(),
                    ridx < picture@.len(),
                    row_bytes@ == picture@[ridx as int]@,
                    row_bytes@.len() == num_cols,
                    forall|t: int|
                        0 <= t < mine_loc@.len() ==> ((#[trigger] mine_loc@[t]).0 < ridx || (
                        mine_loc@[t].0 == ridx && mine_loc@[t].1 < cidx)) && mine_loc@[t].1
                            < num_cols && picture@[mine_loc@[t].0 as int]@[mine_loc@[t].1 as int]
                            == mine_byte(),
                    forall|row: int, c: int|
                        (0 <= row < ridx && 0 <= c < num_cols || row == ridx && 0 <= c < cidx)
                            && picture@[row]@[c] == mine_byte() ==> exists|t: int|
                            0 <= t < mine_loc@.len() && (#[trigger] mine_loc@[t]).0 as int == row
                                && mine_loc@[t].1 as int == c,
            {
                let ghost before = mine_loc@;
                if row_bytes[cidx] == 42u8 {
                    mine_loc.push((ridx as u16, cidx as u16));
                }
                proof {
                    assert forall|row: int, c: int|
                        ((0 <= row < ridx && 0 <= c < num_cols) || (row == ridx && 0 <= c < cidx
                            + 1)) && picture@[row]@[c] == mine_byte() implies exists|t: int|
                        0 <= t < mine_loc@.len() && (#[trigger] mine_loc@[t]).0 as int == row
                            && mine_loc@[t].1 as int == c by {
                        if row == ridx && c == cidx {
                            assert(mine_loc@[mine_loc@.len() - 1].0 as int == row && mine_loc@[
                                mine_loc@.len() - 1].1 as int == c);
                        } else {
                            let t = choose|t: int|
                                0 <= t < before.len() && (#[trigger] before[t]).0 as int == row
                                    && before[t].1 as int == c;
                            assert(mine_loc@[t].0 as int == row && mine_loc@[t].1 as int == c);
                        }
                    }
                }
            }
        }
        let ghost final_list = mine_loc@;
        let board = MineBoard { num_rows, num_cols, mine_loc };
        proof {
            assert(board.mine_loc@ == final_list);
            assert forall|row: int, c: int|
                0 <= row < board.rows() && 0 <= c < board.cols() implies (#[trigger] board.has_mine(
                row,
                c,
            ) <==> picture@[row]@[c] == mine_byte()) by {
                if picture@[row]@[c] == mine_byte() {
                    assert(exists|t: int|
                        0 <= t < final_list.len() && (#[trigger] final_list[t]).0 as int == row
                            && final_list[t].1 as int == c);
                    let t = choose|t: int|
                        0 <= t < final_list.len() && (#[trigger] final_list[t]).0 as int == row
                            && final_list[t].1 as int == c;
                    assert(0 <= t < board.mine_loc@.len() && board.mine_loc@[t].0 as int == row
                        && board.mine_loc@[t].1 as int == c);
                }
                if board.has_mine(row, c) {
                    let t = choose|t: int|
                        0 <= t < board.mine_loc@.len() && (#[trigger] board.mine_loc@[t]).0 as int
                            == row && board.mine_loc@[t].1 as int == c;
                    assert((#[trigger] final_list[t]).0 as int == row && final_list[t].1 as int
                        == c);
                    assert(picture@[final_list[t].0 as int]@[final_list[t].1 as int]
                        == mine_byte());
                }
            }
        }
        Ok(board)
    }

    /// Whether a mine sits on the given cell; coordinates off the board
    /// simply hold no mine.
    pub fn mine_at(&self, row: i32, col: i32) -> (r: bool)
        ensures
            r == self.has_mine(row as int, col as int),
    {
        if row >= 0 && col >= 0 && row < (self.num_rows as i32) && col < (self.num_cols as i32) {
            for t in 0..self.mine_loc.len()
                invariant
                    0 <= row < self.num_rows as i32,
                    0 <= col < self.num_cols as i32,
                    forall|j: int|
                        0 <= j < t ==> !((#[trigger] self.mine_loc@[j]).0 as int == row as int
                            && self.mine_loc@[j].1 as int == col as int),
            {
                let k = self.mine_loc[t];
                if (k.0 as i32) == row && (k.1 as i32) == col {
                    proof {
                        assert(self.mine_loc@[t as int].0 as int == row as int
                            && self.mine_loc@[t as int].1 as int == col as int);
                    }
                    return true;
                }
            }
        }
        false
    }

    /// The count of mines among the eight cells around the given one, the
    /// cell itself not counted.
    pub fn mines_around(&self, row: u16, col: u16) -> (r: i8)
        ensures
            r == self.spec_mines_around(row as int, col as int),
            0 <= r <= 8,
    {
        let mut ret_val: i8 = 0;
        let srow = row as i32;
        let scol = col as i32;
        let ghost l = neighbours_of(row as int, col as int);
        proof {
            assert(self.count_mines(l, 0) == 0);
            assert(l[0] == (row as int - 1, col as int - 1));
            assert(l[1] == (row as int - 1, col as int));
            assert(l[2] == (row as int - 1, col as int + 1));
            assert(l[3] == (row as int, col as int - 1));
            assert(l[4] == (row as int, col as int + 1));
            assert(l[5] == (row as int + 1, col as int - 1));
            assert(l[6] == (row as int + 1, col as int));
            assert(l[7] == (row as int + 1, col as int + 1));
        }
        if self.mine_at(srow - 1, scol - 1) {
            ret_val = ret_val + 1;
        }
        proof {
            assert(ret_val == self.count_mines(l, 1));
        }
        if self.mine_at(srow - 1, scol) {
            ret_val = ret_val + 1;
        }
        proof {
            assert(ret_val == self.count_mines(l, 2));
        }
        if self.mine_at(srow - 1, scol + 1) {
            ret_val = ret_val + 1;
        }
        proof {
            assert(ret_val == self.count_mines(l, 3));
        }
        if self.mine_at(srow, scol - 1) {
            ret_val = ret_val + 1;
        }
        proof {
            assert(ret_val == self.count_mines(l, 4));
        }
        if self.mine_at(srow, scol + 1) {
            ret_val = ret_val + 1;
        }
        proof {
            assert(ret_val == self.count_mines(l, 5));
        }
        if self.mine_at(srow + 1, scol - 1) {
            ret_val = ret_val + 1;
        }
        proof {
            assert(ret_val == self.count_mines(l, 6));
        }
        if self.mine_at(srow + 1, scol) {
            ret_val = ret_val + 1;
        }
        proof {
            assert(ret_val == self.count_mines(l, 7));
        }
        if self.mine_at(srow + 1, scol + 1) {
            ret_val = ret_val + 1;
        }
        proof {
            assert(ret_val == self.count_mines(l, 8));
        }
        ret_val
    }

    /// How many of the first `n` listed cells hold a mine.
    pub closed spec fn count_mines(self, l: Seq<(int, int)>, n: int) -> int
        decreases n,
    {
        if n <= 0 {
            0
        } else {
            self.count_mines(l, n - 1) + if self.has_mine(l[n - 1].0, l[n - 1].1) {
                1int
            } else {
                0int
            }
        }
    }

    /// The count of mines around a cell: over the eight neighbours.
    pub open spec fn spec_mines_around(self, row: int, col: int) -> int {
        self.count_mines(neighbours_of(row, col), 8)
    }

    /// The number reported for one cell: `-1` on a mine, else the count of
    /// mines around it.
    pub open spec fn spec_bomb_count(self, row: int, col: int) -> int {
        if self.has_mine(row, col) {
            -1
        } else {
            self.spec_mines_around(row, col)
        }
    }

    /// The number reported for one cell of the board.
    fn bomb_counts(&self, row: u16, col: u16) -> (r: i8)
        ensures
            r == self.spec_bomb_count(row as int, col as int),
    {
        if self.mine_at(row as i32, col as i32) {
            -1
        } else {
            self.mines_around(row, col)
        }
    }

    /// The full grid of reports: row by row, `-1` for each mined cell and
    /// the neighbour count for every other one.
    pub fn adjacent_bomb_counts(&self) -> (r: Vec<Vec<i8>>)
        ensures
            r@.len() == self.rows(),
            forall|i: int| 0 <= i < r@.len() ==> (#[trigger] r@[i])@.len() == self.cols(),
            forall|i: int, j: int|
                0 <= i < self.rows() && 0 <= j < self.cols() ==> (#[trigger] r@[i]@[j]) as int
                    == self.spec_bomb_count(i, j),
    {
        let mut grid: Vec<Vec<i8>> = Vec::new();
        for row in 0..self.num_rows
            invariant
                grid@.len() == row,
                forall|i: int| 0 <= i < row ==> (#[trigger] grid@[i])@.len() == self.cols(),
                forall|i: int, j: int|
                    0 <= i < row && 0 <= j < self.cols() ==> (#[trigger] grid@[i]@[j]) as int
                        == self.spec_bomb_count(i, j),
        {
            let mut line: Vec<i8> = Vec::new();
            for col in 0..self.num_cols
                invariant
                    line@.len() == col,
                    row < self.num_rows,
                    forall|j: int|
                        0 <= j < col ==> (#[trigger] line@[j]) as int == self.spec_bomb_count(
                            row as int,
                            j,
                        ),
            {
                line.push(self.bomb_counts(row, col));
            }
            grid.push(line);
        }
        grid
    }
}

/// The eight cells around one, in reading order.
pub open spec fn neighbours_of(row: int, col: int) -> Seq<(int, int)> {
    seq![
        (row - 1, col - 1),
        (row - 1, col),
        (row - 1, col + 1),
        (row, col - 1),
        (row, col + 1),
        (row + 1, col - 1),
        (row + 1, col),
        (row + 1, col + 1),
    ]
}

} // verus!
