//! The search engine.
//!
//! [`solve`] runs a best-first search over arrangements: a frontier maps
//! each discovered-but-unexpanded arrangement to its heuristic score, a path
//! table keeps the shortest move sequence known to reach each arrangement
//! from the start, and an exhausted set holds everything already expanded.
//! Whatever comes back is proved to be a legal move sequence that carries
//! the start to the solved arrangement, and the search gives up only when
//! no such sequence exists: an exhausted frontier leaves a set that is
//! closed under legal moves, holds the start, and misses the solved
//! arrangement.  The expansion order follows the heuristic greedily, so the
//! result is not claimed to be shortest.
//!
//! The tables are association lists over the sixteen-entry boards; the
//! frontier is scanned linearly for its minimum, as a small state space
//! makes the simple structure the honest one.

use crate::board::adjacent;
use crate::board::apply_move;
use crate::board::apply_path;
use crate::board::legal_move;
use crate::board::legal_path;
use crate::board::lemma_path_snoc;
use crate::board::score;
use crate::board::solved_seq;
use crate::board::wf_seq;
use crate::board::Arrangement;
use crate::laws::lemma_score_zero_iff_solved;
use vstd::pervasive::unreached;
use vstd::prelude::*;
use vstd::set_lib::lemma_int_range;
use vstd::set_lib::lemma_len_subset;
use vstd::set_lib::set_int_range;

verus! {

/// Whether some entry of an association list carries the key `k`.
pub open spec fn entries_has_key<V>(es: Seq<(Arrangement, V)>, k: Seq<usize>) -> bool {
    exists|i: int| 0 <= i < es.len() && es[i].0@ == k
}

/// The index of the entry carrying key `k`.
spec fn entry_index_of<V>(es: Seq<(Arrangement, V)>, k: Seq<usize>) -> int {
    choose|i: int| 0 <= i < es.len() && es[i].0@ == k
}

/// No two entries carry the same key.
pub open spec fn entries_distinct<V>(es: Seq<(Arrangement, V)>) -> bool {
    forall|i: int, j: int| 0 <= i < j < es.len() ==> es[i].0@ != es[j].0@
}

/// With distinct keys, the entry found for a key is the one that holds it.
proof fn lemma_entry_index<V>(es: Seq<(Arrangement, V)>, i: int)
    requires
        entries_distinct(es),
        0 <= i < es.len(),
    ensures
        entries_has_key(es, es[i].0@),
        entry_index_of(es, es[i].0@) == i,
{
    let k = es[i].0@;
    assert(entries_has_key(es, k));
    let j = entry_index_of(es, k);
    if j < i {
        assert(es[j].0@ != es[i].0@);
    } else if j > i {
        assert(es[i].0@ != es[j].0@);
    }
}

/// The frontier: every arrangement reached but not yet expanded, with its
/// heuristic score.
pub struct ScoreTable {
    entries: Vec<(Arrangement, usize)>,
}

impl View for ScoreTable {
    type V = Map<Seq<usize>, usize>;

    closed spec fn view(&self) -> Map<Seq<usize>, usize> {
        Map::new(
            |k: Seq<usize>| entries_has_key(self.entries@, k),
            |k: Seq<usize>| self.entries@[entry_index_of(self.entries@, k)].1,
        )
    }
}

impl ScoreTable {
    /// Internal shape: one entry for each key.
    pub closed spec fn wf(&self) -> bool {
        entries_distinct(self.entries@)
    }

    /// An empty frontier.
    pub fn new() -> (r: ScoreTable)
        ensures
            r.wf(),
            r@ == Map::<Seq<usize>, usize>::empty(),
    {
        let r = ScoreTable { entries: Vec::new() };
        proof {
            assert(r@ =~= Map::<Seq<usize>, usize>::empty());
        }
        r
    }

    /// Whether no arrangement is waiting.
    pub fn is_empty(&self) -> (r: bool)
        requires
            self.wf(),
        ensures
            r <==> !(exists|k: Seq<usize>| self@.contains_key(k)),
    {
        if self.entries.len() == 0 {
            true
        } else {
            proof {
                lemma_entry_index(self.entries@, 0);
                assert(self@.contains_key(self.entries@[0].0@));
            }
            false
        }
    }

    /// The index of the entry holding `a`, if one does.
    fn find(&self, a: &Arrangement) -> (r: Option<usize>)
        requires
            self.wf(),
        ensures
            match r {
                Some(i) => i < self.entries@.len() && self.entries@[i as int].0@ == a@
                    && self@.contains_key(a@),
                None => !self@.contains_key(a@),
            },
    {
        for i in 0..self.entries.len()
            invariant
                forall|j: int| 0 <= j < i ==> self.entries@[j].0@ != a@,
        {
            if self.entries[i].0.same(a) {
                return Some(i);
            }
        }
        None
    }

    /// Whether `a` is waiting in the frontier.
    pub fn contains(&self, a: &Arrangement) -> (r: bool)
        requires
            self.wf(),
        ensures
            r == self@.contains_key(a@),
    {
        self.find(a).is_some()
    }

    /// Records a newly discovered arrangement with its score.
    pub fn insert(&mut self, a: Arrangement, v: usize)
        requires
            old(self).wf(),
            !old(self)@.contains_key(a@),
        ensures
            final(self).wf(),
            final(self)@ == old(self)@.insert(a@, v),
    {
        self.entries.push((a, v));
        proof {
            let es = self.entries@;
            let old_es = old(self).entries@;
            assert forall|i: int, j: int| 0 <= i < j < es.len() implies es[i].0@ != es[j].0@ by {
                if j < es.len() - 1 {
                    assert(old_es[i].0@ != old_es[j].0@);
                } else {
                    assert(entries_has_key(old_es, old_es[i].0@));
                }
            }
            assert forall|k: Seq<usize>| #[trigger] self@.contains_key(k) == old(
                self,
            )@.insert(a@, v).contains_key(k) by {
                if k == a@ {
                    assert(es[es.len() - 1].0@ == k);
                } else {
                    if entries_has_key(es, k) {
                        let i = choose|i: int| 0 <= i < es.len() && es[i].0@ == k;
                        assert(old_es[i].0@ == k);
                    }
                    if entries_has_key(old_es, k) {
                        let i = choose|i: int| 0 <= i < old_es.len() && old_es[i].0@ == k;
                        assert(es[i].0@ == k);
                    }
                }
            }
            assert forall|k: Seq<usize>| self@.contains_key(k) implies #[trigger] self@[k] == old(
                self,
            )@.insert(a@, v)[k] by {
                if k == a@ {
                    lemma_entry_index(es, es.len() - 1);
                } else {
                    let i = entry_index_of(old_es, k);
                    lemma_entry_index(old_es, i);
                    lemma_entry_index(es, i);
                }
            }
            assert(self@ =~= old(self)@.insert(a@, v));
        }
    }

    /// Drops an arrangement chosen for expansion.
    pub fn remove(&mut self, a: &Arrangement)
        requires
            old(self).wf(),
            old(self)@.contains_key(a@),
        ensures
            final(self).wf(),
            final(self)@ == old(self)@.remove(a@),
    {
        let i = match self.find(a) {
            Some(i) => i,
            None => unreached(),
        };
        self.entries.swap_remove(i);
        proof {
            let es = self.entries@;
            let old_es = old(self).entries@;
            let n = old_es.len() as int;
            assert forall|p: int, q: int| 0 <= p < q < es.len() implies es[p].0@ != es[q].0@ by {
                if p == i as int {
                    assert(old_es[q].0@ != old_es[n - 1].0@ || q == n - 1);
                    assert(old_es[q].0@ != old_es[n - 1].0@);
                } else if q == i as int {
                    assert(old_es[p].0@ != old_es[n - 1].0@);
                } else {
                    assert(old_es[p].0@ != old_es[q].0@);
                }
            }
            assert forall|k: Seq<usize>| #[trigger] self@.contains_key(k) == old(
                self,
            )@.remove(a@).contains_key(k) by {
                if entries_has_key(es, k) {
                    let p = choose|p: int| 0 <= p < es.len() && es[p].0@ == k;
                    if p == i as int {
                        assert(old_es[n - 1].0@ == k);
                        assert(k != a@) by {
                            lemma_entry_index(old_es, i as int);
                            if n - 1 != i as int {
                                assert(old_es[i as int].0@ != old_es[n - 1].0@);
                            }
                        }
                    } else {
                        assert(old_es[p].0@ == k);
                        assert(k != a@) by {
                            lemma_entry_index(old_es, i as int);
                            lemma_entry_index(old_es, p);
                        }
                    }
                }
                if entries_has_key(old_es, k) && k != a@ {
                    let p = choose|p: int| 0 <= p < old_es.len() && old_es[p].0@ == k;
                    assert(p != i as int) by {
                        lemma_entry_index(old_es, i as int);
                        lemma_entry_index(old_es, p);
                    }
                    if p == n - 1 {
                        if i as int == n - 1 {
                        } else {
                            assert(es[i as int].0@ == k);
                        }
                    } else {
                        assert(es[p].0@ == k);
                    }
                }
            }
            assert forall|k: Seq<usize>| self@.contains_key(k) implies #[trigger] self@[k] == old(
                self,
            )@.remove(a@)[k] by {
                let p = entry_index_of(es, k);
                lemma_entry_index(es, p);
                if p == i as int {
                    lemma_entry_index(old_es, n - 1);
                } else {
                    lemma_entry_index(old_es, p);
                }
            }
            assert(self@ =~= old(self)@.remove(a@));
        }
    }
}

/// Picks the frontier member with the least score; among equals, the first
/// one the scan meets wins.
pub fn get_best(scores: &ScoreTable) -> (r: Arrangement)
    requires
        scores.wf(),
        exists|k: Seq<usize>| scores@.contains_key(k),
    ensures
        scores@.contains_key(r@),
        forall|k: Seq<usize>| #[trigger] scores@.contains_key(k) ==> scores@[r@] <= scores@[k],
{
    proof {
        let k0 = choose|k: Seq<usize>| scores@.contains_key(k);
        assert(entries_has_key(scores.entries@, k0));
    }
    let mut best_idx: usize = 0;
    let mut best_sc: usize = scores.entries[0].1;
    for i in 1..scores.entries.len()
        invariant
            scores.wf(),
            scores.entries@.len() > 0,
            best_idx < i,
            i <= scores.entries@.len(),
            best_sc == scores.entries@[best_idx as int].1,
            forall|j: int| 0 <= j < i ==> best_sc <= #[trigger] scores.entries@[j].1,
    {
        if best_sc > scores.entries[i].1 {
            best_idx = i;
            best_sc = scores.entries[i].1;
        }
    }
    let r = scores.entries[best_idx].0;
    proof {
        lemma_entry_index(scores.entries@, best_idx as int);
        assert forall|k: Seq<usize>| #[trigger] scores@.contains_key(k) implies scores@[r@]
            <= scores@[k] by {
            let p = entry_index_of(scores.entries@, k);
            lemma_entry_index(scores.entries@, p);
        }
    }
    r
}

/// The path table: for each discovered arrangement, the shortest move
/// sequence known to reach it from the start.
pub struct PathTable {
    entries: Vec<(Arrangement, Vec<usize>)>,
}

impl View for PathTable {
    type V = Map<Seq<usize>, Seq<usize>>;

    closed spec fn view(&self) -> Map<Seq<usize>, Seq<usize>> {
        Map::new(
            |k: Seq<usize>| entries_has_key(self.entries@, k),
            |k: Seq<usize>| self.entries@[entry_index_of(self.entries@, k)].1@,
        )
    }
}

impl PathTable {
    /// Internal shape: one entry for each key.
    pub closed spec fn wf(&self) -> bool {
        entries_distinct(self.entries@)
    }

    /// An empty table.
    pub fn new() -> (r: PathTable)
        ensures
            r.wf(),
            r@ == Map::<Seq<usize>, Seq<usize>>::empty(),
    {
        let r = PathTable { entries: Vec::new() };
        proof {
            assert(r@ =~= Map::<Seq<usize>, Seq<usize>>::empty());
        }
        r
    }

    /// The index of the entry holding `a`, if one does.
    fn find(&self, a: &Arrangement) -> (r: Option<usize>)
        requires
            self.wf(),
        ensures
            match r {
                Some(i) => i < self.entries@.len() && self.entries@[i as int].0@ == a@
                    && self@.contains_key(a@) && self@[a@] == self.entries@[i as int].1@,
                None => !self@.contains_key(a@),
            },
    {
        for i in 0..self.entries.len()
            invariant
                self.wf(),
                forall|j: int| 0 <= j < i ==> self.entries@[j].0@ != a@,
        {
            if self.entries[i].0.same(a) {
                proof {
                    lemma_entry_index(self.entries@, i as int);
                }
                return Some(i);
            }
        }
        None
    }

    /// A copy of the path stored for `a`, if one is.
    pub fn get(&self, a: &Arrangement) -> (r: Option<Vec<usize>>)
        requires
            self.wf(),
        ensures
            match r {
                Some(p) => self@.contains_key(a@) && p@ == self@[a@],
                None => !self@.contains_key(a@),
            },
    {
        match self.find(a) {
            Some(i) => Some(clone_path(&self.entries[i].1)),
            None => None,
        }
    }

    /// Records the first path found to a fresh arrangement.
    pub fn insert(&mut self, a: Arrangement, v: Vec<usize>)
        requires
            old(self).wf(),
            !old(self)@.contains_key(a@),
        ensures
            final(self).wf(),
            final(self)@ == old(self)@.insert(a@, v@),
    {
        self.entries.push((a, v));
        proof {
            let es = self.entries@;
            let old_es = old(self).entries@;
            assert forall|i: int, j: int| 0 <= i < j < es.len() implies es[i].0@ != es[j].0@ by {
                if j < es.len() - 1 {
                    assert(old_es[i].0@ != old_es[j].0@);
                } else {
                    assert(entries_has_key(old_es, old_es[i].0@));
                }
            }
            assert forall|k: Seq<usize>| #[trigger] self@.contains_key(k) == old(
                self,
            )@.insert(a@, v@).contains_key(k) by {
                if k == a@ {
                    assert(es[es.len() - 1].0@ == k);
                } else {
                    if entries_has_key(es, k) {
                        let i = choose|i: int| 0 <= i < es.len() && es[i].0@ == k;
                        assert(old_es[i].0@ == k);
                    }
                    if entries_has_key(old_es, k) {
                        let i = choose|i: int| 0 <= i < old_es.len() && old_es[i].0@ == k;
                        assert(es[i].0@ == k);
                    }
                }
            }
            assert forall|k: Seq<usize>| self@.contains_key(k) implies #[trigger] self@[k] == old(
                self,
            )@.insert(a@, v@)[k] by {
                if k == a@ {
                    lemma_entry_index(es, es.len() - 1);
                } else {
                    let i = entry_index_of(old_es, k);
                    lemma_entry_index(old_es, i);
                    lemma_entry_index(es, i);
                }
            }
            assert(self@ =~= old(self)@.insert(a@, v@));
        }
    }

    /// Replaces the path stored for `a` by a newly found shorter one.
    pub fn set(&mut self, a: &Arrangement, v: Vec<usize>)
        requires
            old(self).wf(),
            old(self)@.contains_key(a@),
        ensures
            final(self).wf(),
            final(self)@ == old(self)@.insert(a@, v@),
    {
        let i = match self.find(a) {
            Some(i) => i,
            None => unreached(),
        };
        let kept = self.entries[i].0;
        self.entries[i] = (kept, v);
        proof {
            let es = self.entries@;
            let old_es = old(self).entries@;
            assert forall|p: int, q: int| 0 <= p < q < es.len() implies es[p].0@ != es[q].0@ by {
                assert(old_es[p].0@ != old_es[q].0@);
                assert(es[p].0@ == old_es[p].0@ && es[q].0@ == old_es[q].0@);
            }
            assert forall|k: Seq<usize>| #[trigger] self@.contains_key(k) == old(
                self,
            )@.insert(a@, v@).contains_key(k) by {
                if entries_has_key(es, k) {
                    let p = choose|p: int| 0 <= p < es.len() && es[p].0@ == k;
                    assert(old_es[p].0@ == k);
                }
                if entries_has_key(old_es, k) {
                    let p = choose|p: int| 0 <= p < old_es.len() && old_es[p].0@ == k;
                    assert(es[p].0@ == k);
                }
            }
            assert forall|k: Seq<usize>| self@.contains_key(k) implies #[trigger] self@[k] == old(
                self,
            )@.insert(a@, v@)[k] by {
                let p = entry_index_of(es, k);
                lemma_entry_index(es, p);
                lemma_entry_index(old_es, p);
                if k == a@ {
                    lemma_entry_index(old_es, i as int);
                    assert(p == i as int);
                }
            }
            assert(self@ =~= old(self)@.insert(a@, v@));
        }
    }
}

/// The exhausted set: arrangements already expanded, never revisited.
pub struct SeenSet {
    entries: Vec<Arrangement>,
}

impl View for SeenSet {
    type V = Set<Seq<usize>>;

    closed spec fn view(&self) -> Set<Seq<usize>> {
        Set::new(|k: Seq<usize>| exists|i: int| 0 <= i < self.entries@.len() && self.entries@[i]@ == k)
    }
}

impl SeenSet {
    /// An empty set.
    pub fn new() -> (r: SeenSet)
        ensures
            r@ == Set::<Seq<usize>>::empty(),
    {
        let r = SeenSet { entries: Vec::new() };
        proof {
            assert(r@ =~= Set::<Seq<usize>>::empty());
        }
        r
    }

    /// Whether `a` was expanded before.
    pub fn contains(&self, a: &Arrangement) -> (r: bool)
        ensures
            r == self@.contains(a@),
    {
        for i in 0..self.entries.len()
            invariant
                forall|j: int| 0 <= j < i ==> self.entries@[j]@ != a@,
        {
            if self.entries[i].same(a) {
                return true;
            }
        }
        false
    }

    /// Marks `a` as expanded.
    pub fn insert(&mut self, a: Arrangement)
        ensures
            final(self)@ == old(self)@.insert(a@),
    {
        self.entries.push(a);
        proof {
            let es = self.entries@;
            let old_es = old(self).entries@;
            assert forall|k: Seq<usize>| self@.contains(k) == old(self)@.insert(a@).contains(k) by {
                if k == a@ {
                    assert(es[es.len() - 1]@ == k);
                } else {
                    if self@.contains(k) {
                        let i = choose|i: int| 0 <= i < es.len() && es[i]@ == k;
                        assert(old_es[i]@ == k);
                    }
                    if old(self)@.contains(k) {
                        let i = choose|i: int| 0 <= i < old_es.len() && old_es[i]@ == k;
                        assert(es[i]@ == k);
                    }
                }
            }
            assert(self@ =~= old(self)@.insert(a@));
        }
    }
}

/// An exact copy of a move sequence.
fn clone_path(v: &Vec<usize>) -> (r: Vec<usize>)
    ensures
        r@ == v@,
{
    let mut r: Vec<usize> = Vec::new();
    for i in 0..v.len()
        invariant
            r@ == v@.subrange(0, i as int),
    {
        r.push(v[i]);
        proof {
            assert(v@.subrange(0, i + 1 as int) =~= v@.subrange(0, i as int).push(v@[i as int]));
        }
    }
    proof {
        assert(v@.subrange(0, v@.len() as int) =~= v@);
    }
    r
}

/// Sixteen to the `k`th power, the room a base-16 encoding needs.
spec fn pow16(k: int) -> int
    decreases k,
{
    if k <= 0 {
        1
    } else {
        16 * pow16(k - 1)
    }
}

/// Powers of sixteen are positive.
proof fn lemma_pow16_pos(k: int)
    ensures
        pow16(k) >= 1,
    decreases (if k <= 0 { 0int } else { k }),
{
    if k > 0 {
        lemma_pow16_pos(k - 1);
    }
}

/// The base-16 encoding of the tail of a placement from entry `i` on.
spec fn enc(s: Seq<usize>, i: int) -> int
    decreases 16 - i,
{
    if i < 0 || i >= 16 {
        0
    } else {
        s[i] + 16 * enc(s, i + 1)
    }
}

/// The encoding of a well-formed placement's tail fits below `pow16` of the
/// number of entries encoded.
proof fn lemma_enc_bound(s: Seq<usize>, i: int)
    requires
        wf_seq(s),
        0 <= i <= 16,
    ensures
        0 <= enc(s, i) < pow16(16 - i),
    decreases 16 - i,
{
    if i < 16 {
        lemma_enc_bound(s, i + 1);
    }
}

/// Two well-formed placements with the same encoding agree entry by entry.
proof fn lemma_enc_injective(s: Seq<usize>, t: Seq<usize>, i: int)
    requires
        wf_seq(s),
        wf_seq(t),
        0 <= i <= 16,
        enc(s, i) == enc(t, i),
    ensures
        forall|j: int| i <= j < 16 ==> s[j] == t[j],
    decreases 16 - i,
{
    if i < 16 {
        lemma_enc_bound(s, i + 1);
        lemma_enc_bound(t, i + 1);
        assert(s[i] == t[i] && enc(s, i + 1) == enc(t, i + 1));
        lemma_enc_injective(s, t, i + 1);
    }
}

/// A set that holds `a`, is closed under legal moves, and misses the
/// solved arrangement traps every legal path that starts at `a`.
proof fn lemma_closed_set_traps(ex: Set<Seq<usize>>, a: Seq<usize>, q: Seq<usize>)
    requires
        ex.contains(a),
        forall|k: Seq<usize>, m: int|
            ex.contains(k) && #[trigger] legal_move(k, m) ==> ex.contains(apply_move(k, m)),
        !ex.contains(solved_seq()),
        legal_path(a, q),
    ensures
        apply_path(a, q) != solved_seq(),
    decreases q.len(),
{
    if q.len() != 0 {
        assert(legal_move(a, q[0] as int));
        lemma_closed_set_traps(ex, apply_move(a, q[0] as int), q.drop_first());
    }
}

/// Finds a move sequence that carries `start` to the solved arrangement, by
/// best-first expansion of the lowest-scoring frontier member.
///
/// The result, when one comes back, is a legal path from `start` to the
/// solved arrangement, and the solved start yields the empty sequence.  The
/// search gives up (`None`) only after exhausting everything reachable
/// without meeting the solved arrangement, and then no legal path to it
/// exists at all; in particular every arrangement that legal moves produced
/// from the solved one gets a solution.  No shortest-length claim is made:
/// the frontier is ranked by the heuristic alone, as a greedy best-first
/// search, not a strict A*.  Callers are expected to gate on the parity
/// validator first: on an unsolvable arrangement the search visits its
/// whole reachable component before it can give up.
pub fn solve(start: &Arrangement) -> (r: Option<Vec<usize>>)
    requires
        start.wf(),
    ensures
        match r {
            Some(p) => legal_path(start@, p@) && apply_path(start@, p@) == solved_seq() && (
            start@ == solved_seq() ==> p@.len() == 0),
            None => start@ != solved_seq() && forall|q: Seq<usize>|
                #[trigger] legal_path(start@, q) ==> apply_path(start@, q) != solved_seq(),
        },
{
    let start_score = score(start);
    let mut scores = ScoreTable::new();
    let mut shortest_path = PathTable::new();
    let mut exhausted = SeenSet::new();
    scores.insert(*start, start_score);
    shortest_path.insert(*start, Vec::new());
    let mut best_score = start_score;
    let ghost mut codes: Set<int> = Set::empty();
    proof {
        lemma_score_zero_iff_solved(start@);
        lemma_pow16_pos(16);
    }
    while best_score != 0
        invariant
            start.wf(),
            scores.wf(),
            shortest_path.wf(),
            forall|k: Seq<usize>| #[trigger] shortest_path@.contains_key(k) ==> wf_seq(k)
                && legal_path(start@, shortest_path@[k]) && apply_path(start@, shortest_path@[k])
                == k,
            forall|k: Seq<usize>| #[trigger] scores@.contains_key(k) ==>
                shortest_path@.contains_key(k),
            forall|k: Seq<usize>| #[trigger] scores@.contains_key(k) ==> !exhausted@.contains(k),
            forall|k: Seq<usize>| #[trigger] exhausted@.contains(k) ==> wf_seq(k),
            scores@.contains_key(start@) || exhausted@.contains(start@),
            best_score != 0 ==> !exhausted@.contains(solved_seq()),
            forall|k: Seq<usize>, m: int|
                exhausted@.contains(k) && #[trigger] legal_move(k, m) ==> scores@.contains_key(
                    apply_move(k, m),
                ) || exhausted@.contains(apply_move(k, m)),
            best_score == 0 ==> shortest_path@.contains_key(solved_seq()),
            start@ == solved_seq() ==> best_score == 0 && shortest_path@.contains_key(solved_seq())
                && shortest_path@[solved_seq()].len() == 0,
            codes.finite(),
            codes.subset_of(set_int_range(0, pow16(16))),
            codes.len() <= pow16(16),
            forall|k: Seq<usize>| #[trigger] exhausted@.contains(k) ==> codes.contains(enc(k, 0)),
            forall|c: int| #[trigger] codes.contains(c) ==> exists|k: Seq<usize>|
                exhausted@.contains(k) && enc(k, 0) == c,
        decreases pow16(16) - codes.len(),
    {
        if scores.is_empty() {
            proof {
                assert(exhausted@.contains(start@));
                assert forall|k: Seq<usize>, m: int|
                    exhausted@.contains(k) && #[trigger] legal_move(k, m) implies
                    exhausted@.contains(apply_move(k, m)) by {
                    assert(!scores@.contains_key(apply_move(k, m)));
                }
                assert forall|q: Seq<usize>| #[trigger] legal_path(start@, q) implies apply_path(
                    start@,
                    q,
                ) != solved_seq() by {
                    lemma_closed_set_traps(exhausted@, start@, q);
                }
            }
            return None;
        }
        let best_loc = get_best(&scores);
        let cur_path = match shortest_path.get(&best_loc) {
            Some(p) => p,
            None => unreached(),
        };
        let neighbors = adjacent(best_loc);
        let ghost frozen_exhausted = exhausted@;
        let ghost frozen_codes = codes;
        for i in 0..neighbors.len()
            invariant
                start.wf(),
                scores.wf(),
                shortest_path.wf(),
                wf_seq(best_loc@),
                legal_path(start@, cur_path@),
                apply_path(start@, cur_path@) == best_loc@,
                scores@.contains_key(best_loc@),
                exhausted@ == frozen_exhausted,
                codes == frozen_codes,
                forall|j: int| 0 <= j < neighbors@.len() ==> crate::board::legal_move(
                    best_loc@,
                    #[trigger] neighbors@[j].0 as int,
                ) && neighbors@[j].1@ == crate::board::apply_move(best_loc@, neighbors@[j].0 as int)
                    && neighbors@[j].1.wf(),
                forall|k: Seq<usize>| #[trigger] shortest_path@.contains_key(k) ==> wf_seq(k)
                    && legal_path(start@, shortest_path@[k]) && apply_path(
                    start@,
                    shortest_path@[k],
                ) == k,
                forall|k: Seq<usize>| #[trigger] scores@.contains_key(k) ==>
                    shortest_path@.contains_key(k),
                forall|k: Seq<usize>| #[trigger] scores@.contains_key(k) ==> !exhausted@.contains(
                    k,
                ),
                scores@.contains_key(start@) || exhausted@.contains(start@),
                forall|k: Seq<usize>, m: int|
                    exhausted@.contains(k) && #[trigger] legal_move(k, m) ==> scores@.contains_key(
                        apply_move(k, m),
                    ) || exhausted@.contains(apply_move(k, m)),
                forall|j: int|
                    0 <= j < i ==> scores@.contains_key((#[trigger] neighbors@[j]).1@)
                        || exhausted@.contains(neighbors@[j].1@),
                best_score == 0 ==> shortest_path@.contains_key(solved_seq()),
                start@ == solved_seq() ==> best_score == 0 && shortest_path@.contains_key(
                    solved_seq(),
                ) && shortest_path@[solved_seq()].len() == 0,
        {
            let pair = neighbors[i];
            let to_move = pair.0;
            let arr = pair.1;
            let mut new_path = clone_path(&cur_path);
            new_path.push(to_move);
            proof {
                lemma_path_snoc(start@, cur_path@, to_move);
            }
            if !scores.contains(&arr) && !exhausted.contains(&arr) {
                let sc = score(&arr);
                scores.insert(arr, sc);
            }
            match shortest_path.get(&arr) {
                Some(path) => {
                    if path.len() > new_path.len() {
                        shortest_path.set(&arr, new_path);
                    }
                },
                None => {
                    shortest_path.insert(arr, new_path);
                },
            }
        }
        let ghost scores_mid = scores@;
        let best_loc_score = score(&best_loc);
        proof {
            lemma_score_zero_iff_solved(best_loc@);
        }
        if best_loc_score < best_score {
            best_score = best_loc_score;
        }
        scores.remove(&best_loc);
        exhausted.insert(best_loc);
        proof {
            assert forall|k2: Seq<usize>, m2: int|
                exhausted@.contains(k2) && #[trigger] legal_move(k2, m2) implies
                scores@.contains_key(apply_move(k2, m2)) || exhausted@.contains(
                apply_move(k2, m2),
            ) by {
                let t = apply_move(k2, m2);
                if k2 == best_loc@ {
                    let j = choose|j: int| 0 <= j < neighbors@.len() && #[trigger] neighbors@[j].0 == m2;
                    assert(0 <= j < neighbors@.len() && neighbors@[j].0 == m2);
                    assert(neighbors@[j].1@ == t);
                    assert(scores_mid.contains_key(t) || frozen_exhausted.contains(t));
                } else {
                    assert(frozen_exhausted.contains(k2));
                    assert(scores_mid.contains_key(t) || frozen_exhausted.contains(t));
                }
                if scores_mid.contains_key(t) && t != best_loc@ {
                    assert(scores@.contains_key(t));
                }
            }
            let c = enc(best_loc@, 0);
            lemma_enc_bound(best_loc@, 0);
            assert(!codes.contains(c)) by {
                if codes.contains(c) {
                    let k = choose|k: Seq<usize>|
                        frozen_exhausted.contains(k) && enc(k, 0) == c;
                    lemma_enc_injective(k, best_loc@, 0);
                    assert(k =~= best_loc@);
                }
            }
            codes = codes.insert(c);
            lemma_int_range(0, pow16(16));
            lemma_len_subset(codes, set_int_range(0, pow16(16)));
            assert forall|c2: int| #[trigger] codes.contains(c2) implies exists|k: Seq<usize>|
                exhausted@.contains(k) && enc(k, 0) == c2 by {
                if c2 == c {
                    assert(exhausted@.contains(best_loc@) && enc(best_loc@, 0) == c2);
                } else {
                    let k = choose|k: Seq<usize>|
                        frozen_exhausted.contains(k) && enc(k, 0) == c2;
                    assert(exhausted@.contains(k) && enc(k, 0) == c2);
                }
            }
        }
    }
    let solved_arr = Arrangement::solved();
    match shortest_path.get(&solved_arr) {
        Some(p) => Some(p),
        None => unreached(),
    }
}

} // verus!
