//! Repairing a broken chain of pairs.
//!
//! A chain is a list of pairs in which the second element of each pair is
//! meant to be the first element of the next.  A [`ChainFixer`] walks such
//! a list and yields it pair by pair, inserting a mending pair wherever two
//! neighbours fail to join; every two pairs it yields in a row therefore
//! link up.

use vstd::prelude::*;

verus! {

/// Where the walk stands in the chain being fixed.
#[derive(Clone, Copy, Debug, PartialEq, Eq, Structural)]
pub enum ChainPosition {
    /// The pair at the given index comes next.
    Start(usize),
    /// The join after the given index comes next: either the mending pair
    /// or, when the neighbours already join, the following pair itself.
    End(usize),
}

/// One step of the walk: from a position, the position after it and what
/// the step yields, over the original list of pairs.
pub open spec fn chain_step(pos: ChainPosition, orig: Seq<(i32, i32)>) -> (
    ChainPosition,
    Option<(i32, i32)>,
) {
    match pos {
        ChainPosition::Start(k) => {
            if (k as int) < orig.len() {
                (ChainPosition::End(k), Some(orig[k as int]))
            } else {
                (ChainPosition::Start(k), None)
            }
        },
        ChainPosition::End(k) => {
            if (k as int) + 1 < orig.len() {
                if orig[k as int].1 != orig[k as int + 1].0 {
                    (ChainPosition::Start((k + 1) as usize), Some(
                        (orig[k as int].1, orig[k as int + 1].0),
                    ))
                } else {
                    (ChainPosition::End((k + 1) as usize), Some(orig[k as int + 1]))
                }
            } else {
                (ChainPosition::End(k), None)
            }
        },
    }
}

/// A walk that yields a chain of pairs with its breaks mended.
pub struct ChainFixer {
    position: ChainPosition,
    original: Vec<(i32, i32)>,
}

impl ChainFixer {
    /// Where the walk stands.
    pub closed spec fn pos(self) -> ChainPosition {
        self.position
    }

    /// The list of pairs being walked.
    pub closed spec fn orig(self) -> Seq<(i32, i32)> {
        self.original@
    }

    /// Starts a walk over the given pairs.
    pub fn from(v: Vec<(i32, i32)>) -> (r: ChainFixer)
        ensures
            r.pos() == ChainPosition::Start(0usize),
            r.orig() == v@,
    {
        ChainFixer { position: ChainPosition::Start(0), original: v }
    }

    /// Yields the next pair of the mended chain, or nothing when the walk
    /// is over; exactly one step of [`chain_step`].
    pub fn next(&mut self) -> (r: Option<(i32, i32)>)
        ensures
            final(self).orig() == old(self).orig(),
            (final(self).pos(), r) == chain_step(old(self).pos(), old(self).orig()),
    {
        match self.position {
            ChainPosition::Start(k) => {
                if k < self.original.len() {
                    self.position = ChainPosition::End(k);
                    Some(self.original[k])
                } else {
                    None
                }
            },
            ChainPosition::End(k) => {
                if self.original.len() > 0 && k < self.original.len() - 1 {
                    if self.original[k].1 != self.original[k + 1].0 {
                        self.position = ChainPosition::Start(k + 1);
                        Some((self.original[k].1, self.original[k + 1].0))
                    } else {
                        self.position = ChainPosition::End(k + 1);
                        Some(self.original[k + 1])
                    }
                } else {
                    None
                }
            },
        }
    }
}

/// Two pairs yielded in a row always link: the second element of the first
/// is the first element of the second, whatever the original list held.
pub proof fn lemma_chain_links(pos: ChainPosition, orig: Seq<(i32, i32)>)
    requires
        orig.len() <= usize::MAX,
        chain_step(pos, orig).1 is Some,
        chain_step(chain_step(pos, orig).0, orig).1 is Some,
    ensures
        chain_step(pos, orig).1.unwrap().1 == chain_step(chain_step(pos, orig).0, orig).1.unwrap().0,
{
    let s1 = chain_step(pos, orig);
    let s2 = chain_step(s1.0, orig);
    match pos {
        ChainPosition::Start(k) => {
            assert(s1.0 == ChainPosition::End(k));
        },
        ChainPosition::End(k) => {
            assert((k as int) + 1 < orig.len());
            assert((k + 1) as usize as int == k as int + 1);
        },
    }
}

} // verus!
