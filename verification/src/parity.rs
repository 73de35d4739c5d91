//! Solvability of an arrangement.
//!
//! An arrangement can be brought to the solved one by legal moves only if
//! two parities agree: the parity of the permutation that the arrangement
//! is — measured, as usual, by decomposing it into cycles and counting the
//! cycles of even length — and the parity of the blank's taxicab distance
//! from its home corner.  [`is_solvable`] checks that agreement; the search
//! engine itself never re-validates.

use crate::board::dist;
use crate::board::manhattan_dist;
use crate::board::position_to_coord;
use crate::board::wf_seq;
use crate::board::Arrangement;
use vstd::prelude::*;

verus! {

/// How many of the first `n` entries are still unmarked.
pub open spec fn unused_count(used: Seq<bool>, n: int) -> int
    decreases n,
{
    if n <= 0 {
        0
    } else {
        unused_count(used, n - 1) + if used[n - 1] {
            0int
        } else {
            1int
        }
    }
}

/// A count of unmarked entries lies between zero and `n`.
proof fn lemma_unused_count_bounds(used: Seq<bool>, n: int)
    requires
        n >= 0,
    ensures
        0 <= unused_count(used, n) <= n,
    decreases n,
{
    if n > 0 {
        lemma_unused_count_bounds(used, n - 1);
    }
}

/// Marking entry `i` lowers the count of unmarked entries by one when `i`
/// was unmarked and counted, and leaves it alone otherwise.
proof fn lemma_unused_count_update(used: Seq<bool>, i: int, n: int)
    requires
        0 <= i < used.len(),
        n <= used.len(),
    ensures
        unused_count(used.update(i, true), n) == unused_count(used, n) - (if i < n && !used[i] {
            1int
        } else {
            0int
        }),
    decreases n,
{
    if n > 0 {
        lemma_unused_count_update(used, i, n - 1);
    }
}

/// Fresh marks: no entry visited yet.
pub open spec fn all_unused() -> Seq<bool> {
    Seq::new(16, |i: int| false)
}

/// Follows the permutation from `cur`, marking every entry it passes until
/// it reaches one already marked; yields the marks left behind and the
/// number of entries the walk visited — the length of `cur`'s cycle when
/// the walk starts it afresh.
pub open spec fn cycle_walk(s: Seq<usize>, used: Seq<bool>, cur: int) -> (Seq<bool>, int)
    decreases unused_count(used, 16),
        when used.len() == 16 && 0 <= cur < 16 && wf_seq(s)
        via cycle_walk_decreases
{
    if used[cur] {
        (used, 0)
    } else {
        let rest = cycle_walk(s, used.update(cur, true), s[cur] as int);
        (rest.0, rest.1 + 1)
    }
}

#[via_fn]
proof fn cycle_walk_decreases(s: Seq<usize>, used: Seq<bool>, cur: int) {
    if used.len() == 16 && 0 <= cur < 16 && wf_seq(s) && !used[cur] {
        lemma_unused_count_update(used, cur, 16);
        lemma_unused_count_bounds(used, 16);
        lemma_unused_count_bounds(used.update(cur, true), 16);
    }
}

/// How many cycles of even length the walk from `idx` upward still finds,
/// skipping entries already marked as belonging to an earlier cycle.
pub open spec fn even_cycle_count(s: Seq<usize>, used: Seq<bool>, idx: int) -> int
    decreases 16 - idx,
        when 0 <= idx
{
    if idx >= 16 {
        0
    } else if used[idx] {
        even_cycle_count(s, used, idx + 1)
    } else {
        let walk = cycle_walk(s, used, idx);
        even_cycle_count(s, walk.0, idx + 1) + if walk.1 % 2 == 0 {
            1int
        } else {
            0int
        }
    }
}

/// The permutation's parity: odd exactly when its cycle decomposition holds
/// an odd number of even-length cycles.
pub open spec fn parity_odd(s: Seq<usize>) -> bool {
    even_cycle_count(s, all_unused(), 0) % 2 == 1
}

/// An arrangement is solvable when the permutation's parity agrees with the
/// parity of the blank's distance from its home corner.
pub open spec fn solvable(s: Seq<usize>) -> bool {
    (dist(s[15] as int, 15) % 2 == 1) == parity_odd(s)
}

/// Decides the permutation's parity by walking its cycles, exactly as the
/// cycle decomposition defines it.
pub fn is_odd(arrangement: &Arrangement) -> (r: bool)
    requires
        arrangement.wf(),
    ensures
        r == parity_odd(arrangement@),
{
    let ghost s = arrangement@;
    let mut num_even_cycles: usize = 0;
    let mut used_up: [bool; 16] = [false; 16];
    proof {
        assert(used_up@ =~= all_unused());
    }
    for idx in 0..16
        invariant
            arrangement.wf(),
            s == arrangement@,
            used_up@.len() == 16,
            num_even_cycles <= idx,
            even_cycle_count(s, all_unused(), 0) == num_even_cycles + even_cycle_count(
                s,
                used_up@,
                idx as int,
            ),
    {
        if !used_up[idx] {
            let ghost used0 = used_up@;
            let mut current: usize = idx;
            let mut cycle_len: usize = 0;
            while !used_up[current]
                invariant
                    arrangement.wf(),
                    s == arrangement@,
                    used_up@.len() == 16,
                    used0.len() == 16,
                    idx < 16,
                    current < 16,
                    cycle_len == unused_count(used0, 16) - unused_count(used_up@, 16),
                    cycle_walk(s, used0, idx as int).0 == cycle_walk(
                        s,
                        used_up@,
                        current as int,
                    ).0,
                    cycle_walk(s, used0, idx as int).1 == cycle_walk(
                        s,
                        used_up@,
                        current as int,
                    ).1 + cycle_len,
                decreases unused_count(used_up@, 16),
            {
                proof {
                    lemma_unused_count_bounds(used0, 16);
                    lemma_unused_count_bounds(used_up@, 16);
                    lemma_unused_count_update(used_up@, current as int, 16);
                    lemma_unused_count_bounds(used_up@.update(current as int, true), 16);
                }
                cycle_len = cycle_len + 1;
                used_up[current] = true;
                current = arrangement.at(current);
            }
            if cycle_len % 2 == 0 {
                num_even_cycles = num_even_cycles + 1;
            }
            proof {
                assert(cycle_walk(s, used0, idx as int) == (used_up@, cycle_len as int));
            }
        }
    }
    num_even_cycles % 2 == 1
}

/// Whether the solved arrangement is reachable from this one by legal
/// moves: the two parities of the cycle decomposition and of the blank's
/// distance home must agree.
pub fn is_solvable(arrangement: &Arrangement) -> (r: bool)
    requires
        arrangement.wf(),
    ensures
        r == solvable(arrangement@),
{
    (manhattan_dist(position_to_coord(arrangement.at(15)), (3, 3)) % 2 == 1) == is_odd(arrangement)
}

} // verus!
