//! General properties of the board functions, stated and proved once for
//! every arrangement rather than for sample values.

use crate::board::apply_move;
use crate::board::apply_path;
use crate::board::col;
use crate::board::dist;
use crate::board::legal_move;
use crate::board::legal_path;
use crate::board::row;
use crate::board::score_seq;
use crate::board::score_upto;
use crate::board::solved_seq;
use crate::board::wf_seq;
use crate::parity::all_unused;
use crate::parity::cycle_walk;
use crate::parity::even_cycle_count;
use crate::parity::parity_odd;
use crate::parity::solvable;
use vstd::prelude::*;

verus! {

/// A position below 16 splits into its row and column.
proof fn lemma_pos_decomp(p: int)
    requires
        0 <= p,
    ensures
        p == 4 * row(p) + col(p),
        0 <= col(p) < 4,
        0 <= row(p),
{
    assert(p == 4 * (p / 4) + p % 4 && 0 <= p % 4 < 4 && p / 4 >= 0) by (nonlinear_arith)
        requires
            p >= 0,
    ;
}

/// Swapping the same two cells again restores the arrangement: after the
/// move to position `m`, the move back to the blank's old position is
/// legal and undoes it.
pub proof fn lemma_move_involution(s: Seq<usize>, m: int)
    requires
        wf_seq(s),
        legal_move(s, m),
    ensures
        legal_move(apply_move(s, m), s[15] as int),
        apply_move(apply_move(s, m), s[15] as int) == s,
{
    let b = s[15] as int;
    crate::board::lemma_wf_surjective(s, m as usize);
    assert(s[15] != m) by {
        assert(dist(m, m) == 0);
    }
    let i = choose|i: int| 0 <= i < 16 && s[i] == m as usize;
    assert(0 <= i < 15 && s[i] == m);
    crate::board::lemma_tile_at(s, m, i);
    crate::board::lemma_apply_move_wf(s, m);
    let t = apply_move(s, m);
    assert(t[i] == s[15]);
    crate::board::lemma_tile_at(t, b, i);
    assert(t[15] == m as usize);
    assert(dist(b, m) == 1);
    assert(apply_move(t, b) =~= s);
}

/// No partial score is negative.
proof fn lemma_score_upto_nonneg(s: Seq<usize>, n: int)
    ensures
        score_upto(s, n) >= 0,
    decreases n,
{
    if n > 0 {
        lemma_score_upto_nonneg(s, n - 1);
    }
}

/// A zero partial score places each of the first `n` tiles at distance zero.
proof fn lemma_score_upto_zero(s: Seq<usize>, n: int)
    requires
        score_upto(s, n) == 0,
    ensures
        forall|i: int| 0 <= i < n ==> dist(s[i] as int, i) == 0,
    decreases n,
{
    if n > 0 {
        lemma_score_upto_nonneg(s, n - 1);
        lemma_score_upto_zero(s, n - 1);
    }
}

/// Tiles all on their own positions give a zero partial score.
proof fn lemma_score_upto_home(s: Seq<usize>, n: int)
    requires
        forall|i: int| 0 <= i < n ==> s[i] as int == i,
    ensures
        score_upto(s, n) == 0,
    decreases n,
{
    if n > 0 {
        lemma_score_upto_home(s, n - 1);
    }
}

/// The score is zero exactly on the solved arrangement: the solved placement
/// scores zero, and a zero score forces every tile home, which leaves the
/// blank no position but its own corner.
pub proof fn lemma_score_zero_iff_solved(s: Seq<usize>)
    requires
        wf_seq(s),
    ensures
        score_seq(s) == 0 <==> s == solved_seq(),
{
    if score_seq(s) == 0 {
        lemma_score_upto_zero(s, 15);
        assert forall|i: int| 0 <= i < 15 implies s[i] as int == i by {
            lemma_pos_decomp(s[i] as int);
            lemma_pos_decomp(i);
        }
        assert(s[15] == 15) by {
            let v = s[15] as int;
            if v < 15 {
                assert(s[v] as int == v);
                assert(s[v] != s[15]);
            }
        }
        assert(s =~= solved_seq());
    }
    if s == solved_seq() {
        lemma_score_upto_home(s, 15);
    }
}

/// Whether the blank stands on a light or a dark square of the grid's
/// checkerboard colouring.
pub open spec fn blank_parity(s: Seq<usize>) -> int {
    (col(s[15] as int) + row(s[15] as int)) % 2
}

/// Each legal move carries the blank to a square of the other colour.
proof fn lemma_move_flips_blank_parity(s: Seq<usize>, m: int)
    requires
        wf_seq(s),
        legal_move(s, m),
    ensures
        blank_parity(apply_move(s, m)) == 1 - blank_parity(s),
{
    let b = s[15] as int;
    crate::board::lemma_wf_surjective(s, m as usize);
    assert(s[15] != m) by {
        assert(dist(m, m) == 0);
    }
    let i = choose|i: int| 0 <= i < 16 && s[i] == m as usize;
    assert(0 <= i < 15 && s[i] == m);
    crate::board::lemma_tile_at(s, m, i);
    assert(apply_move(s, m)[15] == m as usize);
    lemma_pos_decomp(m);
    lemma_pos_decomp(b);
}

/// After a legal path the blank's square colour is the starting colour
/// shifted by the path's length.
proof fn lemma_path_blank_parity(s: Seq<usize>, p: Seq<usize>)
    requires
        wf_seq(s),
        legal_path(s, p),
    ensures
        blank_parity(apply_path(s, p)) == (blank_parity(s) + p.len()) % 2,
    decreases p.len(),
{
    if p.len() == 0 {
    } else {
        lemma_move_flips_blank_parity(s, p[0] as int);
        crate::board::lemma_apply_move_wf(s, p[0] as int);
        lemma_path_blank_parity(apply_move(s, p[0] as int), p.drop_first());
    }
}

/// Playing a legal path keeps the placement a permutation.
pub proof fn lemma_apply_path_wf(s: Seq<usize>, p: Seq<usize>)
    requires
        wf_seq(s),
        legal_path(s, p),
    ensures
        wf_seq(apply_path(s, p)),
    decreases p.len(),
{
    if p.len() != 0 {
        crate::board::lemma_apply_move_wf(s, p[0] as int);
        lemma_apply_path_wf(apply_move(s, p[0] as int), p.drop_first());
    }
}

/// Every legal path can be walked back: some legal path of the same length
/// leads from where it ends to where it began — each move undone in turn.
/// Together with the search engine's promise that it fails only when no
/// path to the solved arrangement exists, this guarantees a solution for
/// every arrangement that legal moves produced from the solved one.
pub proof fn lemma_path_reversal(s: Seq<usize>, p: Seq<usize>)
    requires
        wf_seq(s),
        legal_path(s, p),
    ensures
        exists|q: Seq<usize>|
            legal_path(apply_path(s, p), q) && apply_path(apply_path(s, p), q) == s && q.len()
                == p.len(),
    decreases p.len(),
{
    if p.len() == 0 {
        let q = Seq::<usize>::empty();
        assert(legal_path(apply_path(s, p), q) && apply_path(apply_path(s, p), q) == s && q.len()
            == p.len());
    } else {
        let s1 = apply_move(s, p[0] as int);
        crate::board::lemma_apply_move_wf(s, p[0] as int);
        lemma_path_reversal(s1, p.drop_first());
        let reached = apply_path(s, p);
        assert(reached == apply_path(s1, p.drop_first()));
        let q1 = choose|q1: Seq<usize>|
            legal_path(reached, q1) && apply_path(reached, q1) == s1 && q1.len() == p.len() - 1;
        lemma_move_involution(s, p[0] as int);
        crate::board::lemma_path_snoc(reached, q1, s[15]);
        let q = q1.push(s[15]);
        assert(legal_path(reached, q) && apply_path(reached, q) == s && q.len() == p.len());
    }
}

/// The solved arrangement is a permutation.
pub proof fn lemma_solved_wf()
    ensures
        wf_seq(solved_seq()),
{
}

/// Walking the cycles of the solved arrangement finds sixteen fixed points:
/// every entry is a cycle of length one, so no even cycle at all.
proof fn lemma_identity_cycles(used: Seq<bool>, idx: int)
    requires
        used.len() == 16,
        0 <= idx <= 16,
        forall|j: int| idx <= j < 16 ==> !used[j],
    ensures
        even_cycle_count(solved_seq(), used, idx) == 0,
    decreases 16 - idx,
{
    if idx < 16 {
        lemma_solved_wf();
        let marked = used.update(idx, true);
        assert(cycle_walk(solved_seq(), marked, idx) == (marked, 0int));
        assert(solved_seq()[idx] as int == idx);
        assert(cycle_walk(solved_seq(), used, idx) == (marked, 1int));
        lemma_identity_cycles(marked, idx + 1);
    }
}

/// The solved arrangement passes the solvability check: its permutation is
/// even, and its blank is no step at all from home.
pub proof fn lemma_solved_solvable()
    ensures
        solvable(solved_seq()),
{
    lemma_identity_cycles(all_unused(), 0);
    assert(!parity_odd(solved_seq()));
    assert(solved_seq()[15] == 15);
    assert(dist(15, 15) == 0);
}

/// Any two legal move sequences between the solved arrangement and the same
/// scramble have lengths of the same parity.  In particular, a solution
/// found for a scramble that was produced by playing `outward` from the
/// solved arrangement must have a length of the same parity as `outward`.
pub proof fn lemma_solution_length_parity(
    scramble: Seq<usize>,
    outward: Seq<usize>,
    back: Seq<usize>,
)
    requires
        legal_path(solved_seq(), outward),
        apply_path(solved_seq(), outward) == scramble,
        legal_path(scramble, back),
        apply_path(scramble, back) == solved_seq(),
    ensures
        outward.len() % 2 == back.len() % 2,
{
    lemma_solved_wf();
    lemma_apply_path_wf(solved_seq(), outward);
    lemma_path_blank_parity(solved_seq(), outward);
    lemma_path_blank_parity(scramble, back);
    assert(solved_seq()[15] == 15);
    assert(blank_parity(solved_seq()) == 0);
}

} // verus!
