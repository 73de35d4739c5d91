//! The 4x4 sliding-tile board.
//!
//! An [`Arrangement`] records, for each of the fifteen numbered tiles and the
//! blank, which grid position it occupies: entry `t` of the underlying array
//! is the position (0..16, row-major) of tile `t`, and entry 15 is the
//! position of the blank.  A well-formed arrangement is a permutation of the
//! sixteen positions.  A move is identified by the board position whose
//! occupant is swapped with the blank, and is legal when that position is an
//! orthogonal neighbour of the blank's position on the grid.

use vstd::math::abs;
use vstd::prelude::*;
use vstd::set_lib::lemma_int_range;
use vstd::set_lib::lemma_len_subset;
use vstd::set_lib::lemma_subset_equality;

verus! {

/// A placement is well formed when it is a permutation of the positions
/// 0..16: sixteen entries, each a position, no two alike.
pub open spec fn wf_seq(s: Seq<usize>) -> bool {
    &&& s.len() == 16
    &&& forall|i: int| 0 <= i < 16 ==> s[i] < 16
    &&& forall|i: int, j: int| 0 <= i < j < 16 ==> s[i] != s[j]
}

/// The solved placement: every tile sits on its own position and the blank
/// sits in the bottom-right corner.
pub open spec fn solved_seq() -> Seq<usize> {
    Seq::new(16, |i: int| i as usize)
}

/// Column of a grid position.
pub open spec fn col(p: int) -> int {
    p % 4
}

/// Row of a grid position.
pub open spec fn row(p: int) -> int {
    p / 4
}

/// Manhattan (taxicab) distance between two grid positions.
pub open spec fn dist(p: int, q: int) -> int {
    abs(col(p) - col(q)) as int + abs(row(p) - row(q)) as int
}

/// A move is the board position whose occupant trades places with the
/// blank; it is legal when that position is one grid step from the blank's.
pub open spec fn legal_move(s: Seq<usize>, m: int) -> bool {
    &&& 0 <= m < 16
    &&& dist(m, s[15] as int) == 1
}

/// The tile occupying position `p`: the entry below 15 that maps to it.
pub open spec fn tile_at(s: Seq<usize>, p: int) -> int {
    choose|k: int| 0 <= k < 15 && s[k] == p
}

/// The placement after the move: the occupant of position `m` takes the
/// blank's position, and the blank takes `m`.
pub open spec fn apply_move(s: Seq<usize>, m: int) -> Seq<usize> {
    s.update(tile_at(s, m), s[15]).update(15, m as usize)
}

/// A sequence of moves, each legal in the placement left by the previous one.
pub open spec fn legal_path(s: Seq<usize>, p: Seq<usize>) -> bool
    decreases p.len(),
{
    p.len() == 0 || (legal_move(s, p[0] as int) && legal_path(
        apply_move(s, p[0] as int),
        p.drop_first(),
    ))
}

/// The placement left after playing every move of `p` in order.
pub open spec fn apply_path(s: Seq<usize>, p: Seq<usize>) -> Seq<usize>
    decreases p.len(),
{
    if p.len() == 0 {
        s
    } else {
        apply_path(apply_move(s, p[0] as int), p.drop_first())
    }
}

/// Sum of the tile distances of the first `n` tiles: for each non-blank tile,
/// how far its position is from its place in the solved arrangement.
pub open spec fn score_upto(s: Seq<usize>, n: int) -> int
    decreases n,
{
    if n <= 0 {
        0
    } else {
        score_upto(s, n - 1) + dist(s[n - 1] as int, n - 1)
    }
}

/// The heuristic score: total Manhattan distance of the fifteen numbered
/// tiles from their solved positions.  The blank does not count.
pub open spec fn score_seq(s: Seq<usize>) -> int {
    score_upto(s, 15)
}

/// One full placement of the fifteen tiles and the blank on the grid.
#[derive(Clone, Copy, Debug, PartialEq, Eq)]
pub struct Arrangement {
    cells: [usize; 16],
}

impl View for Arrangement {
    type V = Seq<usize>;

    closed spec fn view(&self) -> Seq<usize> {
        self.cells@
    }
}

impl Arrangement {
    /// The arrangement is a permutation of the sixteen positions.
    pub open spec fn wf(self) -> bool {
        wf_seq(self@)
    }

    /// Builds an arrangement from an array mapping each tile (and the blank,
    /// entry 15) to its position; rejects anything but a permutation.
    pub fn new(cells: [usize; 16]) -> (r: Option<Arrangement>)
        ensures
            r is Some <==> wf_seq(cells@),
            r is Some ==> r.unwrap()@ == cells@ && r.unwrap().wf(),
    {
        for i in 0..16
            invariant
                forall|j: int| 0 <= j < i ==> cells@[j] < 16,
        {
            if cells[i] >= 16 {
                return None;
            }
        }
        for i in 0..16
            invariant
                forall|a: int, b: int| 0 <= a < b < 16 && a < i ==> cells@[a] != cells@[b],
        {
            for j in (i + 1)..16
                invariant
                    i < 16,
                    forall|a: int, b: int| 0 <= a < b < 16 && a < i ==> cells@[a] != cells@[b],
                    forall|b: int| i < b < j ==> cells@[i as int] != cells@[b],
            {
                if cells[i] == cells[j] {
                    return None;
                }
            }
        }
        Some(Arrangement { cells })
    }

    /// The position of tile `i` (or, for `i == 15`, of the blank).
    pub fn at(&self, i: usize) -> (r: usize)
        requires
            i < 16,
        ensures
            r == self@[i as int],
    {
        self.cells[i]
    }

    /// The solved arrangement.
    pub fn solved() -> (r: Arrangement)
        ensures
            r@ == solved_seq(),
            r.wf(),
    {
        let cells: [usize; 16] = [0, 1, 2, 3, 4, 5, 6, 7, 8, 9, 10, 11, 12, 13, 14, 15];
        let a = Arrangement { cells };
        proof {
            assert(a@ =~= solved_seq());
        }
        a
    }

    /// Entry-by-entry equality, usable in verified code.
    pub fn same(&self, other: &Arrangement) -> (r: bool)
        ensures
            r <==> self@ == other@,
    {
        for i in 0..16
            invariant
                forall|j: int| 0 <= j < i ==> self@[j] == other@[j],
        {
            if self.cells[i] != other.cells[i] {
                return false;
            }
        }
        proof {
            assert(self@ =~= other@);
        }
        true
    }
}

/// The grid coordinate `(column, row)` of a position.
pub fn position_to_coord(pos: usize) -> (r: (usize, usize))
    ensures
        r.0 == col(pos as int),
        r.1 == row(pos as int),
{
    (pos % 4, pos / 4)
}

/// The taxicab distance between two coordinates.
pub fn manhattan_dist(x: (usize, usize), y: (usize, usize)) -> (r: usize)
    requires
        abs(x.0 - y.0) + abs(x.1 - y.1) <= usize::MAX,
    ensures
        r == abs(x.0 - y.0) + abs(x.1 - y.1),
{
    let dc = if x.0 >= y.0 {
        x.0 - y.0
    } else {
        y.0 - x.0
    };
    let dr = if x.1 >= y.1 {
        x.1 - y.1
    } else {
        y.1 - x.1
    };
    dc + dr
}

/// Exchanges the two entries named by `pos`, giving the arrangement in which
/// those two occupants have traded positions.
pub fn swap(a: Arrangement, pos: (usize, usize)) -> (r: Arrangement)
    requires
        pos.0 < 16,
        pos.1 < 16,
    ensures
        r@ == a@.update(pos.0 as int, a@[pos.1 as int]).update(pos.1 as int, a@[pos.0 as int]),
        a.wf() ==> r.wf(),
{
    let mut cells = a.cells;
    let temp = cells[pos.0];
    cells[pos.0] = cells[pos.1];
    cells[pos.1] = temp;
    let r = Arrangement { cells };
    proof {
        assert(r@ =~= a@.update(pos.0 as int, a@[pos.1 as int]).update(
            pos.1 as int,
            a@[pos.0 as int],
        ));
        if a.wf() {
            assert forall|i: int, j: int| 0 <= i < j < 16 implies r@[i] != r@[j] by {
                assert(a@[i] != a@[j]);
            }
        }
    }
    r
}

/// The heuristic score of an arrangement: the summed distance of every
/// numbered tile from its solved position.
pub fn score(a: &Arrangement) -> (r: usize)
    requires
        a.wf(),
    ensures
        r == score_seq(a@),
        r <= 90,
{
    let mut ret_val: usize = 0;
    for idx in 0..15
        invariant
            a.wf(),
            ret_val == score_upto(a@, idx as int),
            ret_val <= 6 * idx,
    {
        let d = manhattan_dist(position_to_coord(a.at(idx)), position_to_coord(idx));
        proof {
            assert(d == dist(a@[idx as int] as int, idx as int));
            assert(d <= 6) by {
                assert(abs(col(a@[idx as int] as int) - col(idx as int)) <= 3);
                assert(abs(row(a@[idx as int] as int) - row(idx as int)) <= 3);
            }
        }
        ret_val = ret_val + d;
    }
    ret_val
}

/// Looks for the tile occupying position `val`; the blank never counts as an
/// occupant.
pub fn find_in(a: Arrangement, val: usize) -> (r: Option<usize>)
    ensures
        match r {
            Some(k) => k < 15 && a@[k as int] == val,
            None => forall|k: int| 0 <= k < 15 ==> a@[k] != val,
        },
{
    for k in 0..15
        invariant
            forall|j: int| 0 <= j < k ==> a@[j] != val,
    {
        if a.cells[k] == val {
            return Some(k);
        }
    }
    None
}

/// The entry below 15 holding position `p` is the tile the spec names.
pub proof fn lemma_tile_at(s: Seq<usize>, p: int, k: int)
    requires
        wf_seq(s),
        0 <= k < 15,
        s[k] == p,
    ensures
        tile_at(s, p) == k,
{
    assert(exists|i: int| 0 <= i < 15 && s[i] == p) by {
        assert(0 <= k < 15 && s[k] == p);
    }
    let j = tile_at(s, p);
    if j < k {
        assert(s[j] != s[k]);
    } else if j > k {
        assert(s[k] != s[j]);
    }
}

/// A legal move leaves the placement a permutation: two entries trade
/// values, nothing else changes.
pub proof fn lemma_apply_move_wf(s: Seq<usize>, m: int)
    requires
        wf_seq(s),
        legal_move(s, m),
    ensures
        wf_seq(apply_move(s, m)),
{
    lemma_wf_surjective(s, m as usize);
    assert(s[15] != m) by {
        assert(dist(m, m) == 0);
    }
    let i = choose|i: int| 0 <= i < 16 && s[i] == m as usize;
    assert(0 <= i < 15 && s[i] == m);
    lemma_tile_at(s, m, i);
    let t = apply_move(s, m);
    assert forall|x: int, y: int| 0 <= x < y < 16 implies t[x] != t[y] by {
        let xs: int = if x == 15 {
            i
        } else if x == i {
            15int
        } else {
            x
        };
        let ys: int = if y == 15 {
            i
        } else if y == i {
            15int
        } else {
            y
        };
        assert(t[x] == s[xs] && t[y] == s[ys]);
        if xs < ys {
            assert(s[xs] != s[ys]);
        } else {
            assert(s[ys] != s[xs]);
        }
    }
}

/// Plays one legal move: the occupant of position `m` and the blank trade
/// places.  The occupant exists because the placement is a permutation and
/// `m`, one step from the blank, is not the blank's own position.
pub fn play_move(a: Arrangement, m: usize) -> (r: Arrangement)
    requires
        a.wf(),
        legal_move(a@, m as int),
    ensures
        r@ == apply_move(a@, m as int),
        r.wf(),
{
    proof {
        lemma_wf_surjective(a@, m);
        assert(a@[15] != m) by {
            assert(dist(m as int, m as int) == 0);
        }
        let i = choose|i: int| 0 <= i < 16 && a@[i] == m;
        assert(0 <= i < 15 && a@[i] == m);
    }
    let k = match find_in(a, m) {
        Some(k) => k,
        None => vstd::pervasive::unreached(),
    };
    let r = swap(a, (15, k));
    proof {
        lemma_tile_at(a@, m as int, k as int);
        assert(r@ =~= apply_move(a@, m as int));
    }
    r
}

/// Plays the move to position `target` and appends it, paired with the
/// arrangement it leads to.
fn push_neighbor(ret_val: &mut Vec<(usize, Arrangement)>, a: Arrangement, target: usize)
    requires
        a.wf(),
        target < 16,
        dist(target as int, a@[15] as int) == 1,
    ensures
        final(ret_val)@.len() == old(ret_val)@.len() + 1,
        forall|i: int| 0 <= i < old(ret_val)@.len() ==> final(ret_val)@[i] == old(ret_val)@[i],
        final(ret_val)@[old(ret_val)@.len() as int].0 == target,
        final(ret_val)@[old(ret_val)@.len() as int].1@ == apply_move(a@, target as int),
        final(ret_val)@[old(ret_val)@.len() as int].1.wf(),
{
    let next = play_move(a, target);
    ret_val.push((target, next));
}

/// The legal moves from a blank position, in the fixed direction order up,
/// down, left, right: each neighbouring position that exists on the grid.
pub open spec fn move_order(b: int) -> Seq<int> {
    (if b >= 4 {
        seq![b - 4]
    } else {
        Seq::<int>::empty()
    }) + (if b < 12 {
        seq![b + 4]
    } else {
        Seq::<int>::empty()
    }) + (if b % 4 != 0 {
        seq![b - 1]
    } else {
        Seq::<int>::empty()
    }) + (if b % 4 != 3 {
        seq![b + 1]
    } else {
        Seq::<int>::empty()
    })
}

/// The positions a list of move-arrangement pairs names, in order.
pub open spec fn moves_of(r: Seq<(usize, Arrangement)>) -> Seq<int> {
    Seq::new(r.len(), |i: int| r[i].0 as int)
}

/// Enumerates the legal moves of an arrangement, each paired with the
/// arrangement it leads to.  The moves come in the fixed order up, down,
/// left, right — exactly `move_order` of the blank's position — so every
/// legal move appears once, and between two (blank in a corner) and four
/// (blank in the middle) pairs come back.
pub fn adjacent(arrangement: Arrangement) -> (r: Vec<(usize, Arrangement)>)
    requires
        arrangement.wf(),
    ensures
        2 <= r@.len() <= 4,
        moves_of(r@) == move_order(arrangement@[15] as int),
        forall|i: int|
            0 <= i < r@.len() ==> legal_move(arrangement@, #[trigger] r@[i].0 as int) && r@[i].1@
                == apply_move(arrangement@, r@[i].0 as int) && r@[i].1.wf(),
        forall|m: int|
            legal_move(arrangement@, m) ==> exists|i: int|
                0 <= i < r@.len() && #[trigger] r@[i].0 == m,
        forall|i: int, j: int| 0 <= i < j < r@.len() ==> r@[i].0 != r@[j].0,
{
    let mut ret_val: Vec<(usize, Arrangement)> = Vec::new();
    let blank = arrangement.at(15);
    let ghost s = arrangement@;
    let ghost b = s[15] as int;
    proof {
        assert(b == 4 * (b / 4) + b % 4) by (nonlinear_arith)
            requires b >= 0;
    }
    let ghost mut iu: int = -1;
    let ghost mut id: int = -1;
    let ghost mut il: int = -1;
    let ghost mut ir: int = -1;
    // up
    if blank >= 4 {
        proof {
            assert(dist(b - 4, b) == 1);
        }
        push_neighbor(&mut ret_val, arrangement, blank - 4);
        proof {
            iu = ret_val@.len() - 1;
        }
    }
    // down
    if blank < 12 {
        proof {
            assert(dist(b + 4, b) == 1);
        }
        push_neighbor(&mut ret_val, arrangement, blank + 4);
        proof {
            id = ret_val@.len() - 1;
        }
    }
    // left
    if blank % 4 != 0 {
        proof {
            assert(dist(b - 1, b) == 1);
        }
        push_neighbor(&mut ret_val, arrangement, blank - 1);
        proof {
            il = ret_val@.len() - 1;
        }
    }
    // right
    if blank % 4 != 3 {
        proof {
            assert(dist(b + 1, b) == 1);
        }
        push_neighbor(&mut ret_val, arrangement, blank + 1);
        proof {
            ir = ret_val@.len() - 1;
        }
    }
    proof {
        assert(2 <= ret_val@.len() <= 4);
        let n = ret_val@.len() as int;
        let up: int = if b >= 4 { 1int } else { 0int };
        let down: int = if b < 12 { 1int } else { 0int };
        let left: int = if b % 4 != 0 { 1int } else { 0int };
        assert(b >= 4 ==> iu == 0 && ret_val@[iu].0 == b - 4);
        assert(b < 12 ==> id == up && ret_val@[id].0 == b + 4);
        assert(b % 4 != 0 ==> il == up + down && ret_val@[il].0 == b - 1);
        assert(b % 4 != 3 ==> ir == up + down + left && ret_val@[ir].0 == b + 1);
        assert forall|i: int| 0 <= i < n implies moves_of(ret_val@)[i] == move_order(b)[i] by {
            assert(i == iu || i == id || i == il || i == ir);
        }
        assert(moves_of(ret_val@) =~= move_order(b));
        assert forall|i: int, j: int| 0 <= i < j < n implies ret_val@[i].0 != ret_val@[j].0 by {
            assert(i == iu || i == id || i == il || i == ir);
            assert(j == iu || j == id || j == il || j == ir);
        }
        assert forall|m: int| legal_move(s, m) implies exists|i: int|
            0 <= i < ret_val@.len() && #[trigger] ret_val@[i].0 == m by {
            assert(m == 4 * (m / 4) + m % 4) by (nonlinear_arith)
                requires m >= 0;
            assert(m == b - 4 || m == b + 4 || m == b - 1 || m == b + 1);
            if m == b - 4 {
                assert(ret_val@[iu].0 == m);
            } else if m == b + 4 {
                assert(ret_val@[id].0 == m);
            } else if m == b - 1 {
                assert(b % 4 != 0);
                assert(ret_val@[il].0 == m);
            } else {
                assert(b % 4 != 3);
                assert(ret_val@[ir].0 == m);
            }
        }
    }
    ret_val
}

/// In a well-formed placement every position is occupied: the sixteen
/// distinct entries, all below 16, cover 0..16 completely.
pub proof fn lemma_wf_surjective(s: Seq<usize>, v: usize)
    requires
        wf_seq(s),
        v < 16,
    ensures
        exists|i: int| 0 <= i < 16 && s[i] == v,
{
    let positions = vstd::set_lib::set_int_range(0, 16);
    let occupied = Set::new(|p: int| exists|i: int| 0 <= i < 16 && s[i] == p);
    let indices = vstd::set_lib::set_int_range(0, 16);
    lemma_int_range(0, 16);
    assert(occupied.subset_of(positions));
    lemma_len_subset(occupied, positions);
    // Each index occupies its own position, so at least sixteen positions
    // are occupied; being among sixteen in all, every one is.
    let f = |i: int| s[i] as int;
    assert forall|x: int| indices.contains(x) implies occupied.contains(#[trigger] f(x)) by {
        assert(0 <= x < 16 && s[x] == s[x]);
    }
    assert forall|x: int, y: int|
        indices.contains(x) && indices.contains(y) && x != y implies f(x) != f(y) by {
        if x < y {
            assert(s[x] != s[y]);
        } else {
            assert(s[y] != s[x]);
        }
    }
    lemma_injective_image_size(f, indices, occupied);
    lemma_subset_equality(occupied, positions);
    assert(positions.contains(v as int));
    assert(occupied.contains(v as int));
}

/// Appending one legal move to a legal path keeps it legal and plays the
/// extra move on the placement the path reaches.
pub proof fn lemma_path_snoc(s: Seq<usize>, p: Seq<usize>, m: usize)
    requires
        legal_path(s, p),
        legal_move(apply_path(s, p), m as int),
    ensures
        legal_path(s, p.push(m)),
        apply_path(s, p.push(m)) == apply_move(apply_path(s, p), m as int),
    decreases p.len(),
{
    if p.len() == 0 {
        assert(apply_path(s, p) == s);
        assert(p.push(m)[0] == m);
        assert(p.push(m).drop_first() =~= Seq::<usize>::empty());
        assert(legal_path(apply_move(s, m as int), p.push(m).drop_first()));
        assert(legal_path(s, p.push(m)));
        assert(apply_path(apply_move(s, m as int), p.push(m).drop_first()) == apply_move(
            s,
            m as int,
        ));
        assert(apply_path(s, p.push(m)) == apply_move(s, m as int));
    } else {
        lemma_path_snoc(apply_move(s, p[0] as int), p.drop_first(), m);
        assert(p.push(m).drop_first() =~= p.drop_first().push(m));
        assert(p.push(m)[0] == p[0]);
        assert(legal_path(s, p.push(m)));
        assert(apply_path(s, p.push(m)) == apply_move(apply_path(s, p), m as int));
    }
}

/// An injective map carries a finite set onto an image at least as large.
proof fn lemma_injective_image_size(f: spec_fn(int) -> int, dom: Set<int>, image: Set<int>)
    requires
        dom.finite(),
        forall|x: int| dom.contains(x) ==> image.contains(#[trigger] f(x)),
        forall|x: int, y: int| dom.contains(x) && dom.contains(y) && x != y ==> f(x) != f(y),
        image.finite(),
    ensures
        image.len() >= dom.len(),
    decreases dom.len(),
{
    if dom.len() > 0 {
        let x = dom.choose();
        lemma_injective_image_size(f, dom.remove(x), image.remove(f(x)));
    }
}

} // verus!
