//! Small helpers for the interactive front end.

use vstd::prelude::*;

verus! {

/// An index that cycles through `n` positions, wrapping at both ends.
#[derive(Debug, Clone, Copy, PartialEq, Eq, Structural)]
pub struct CyclingIdx {
    idx: usize,
    n: usize,
}

impl CyclingIdx {
    /// The cycle length.
    pub closed spec fn len(self) -> int {
        self.n as int
    }

    /// The current position, always below the cycle length.
    pub closed spec fn pos(self) -> int {
        self.idx as int
    }

    /// Whether the index is usable: a non-empty cycle, position inside it.
    pub closed spec fn wf(self) -> bool {
        self.n > 0 && self.idx < self.n
    }

    /// A cycle of `n` positions starting at the first.
    pub fn new(n: usize) -> (r: CyclingIdx)
        requires
            n > 0,
        ensures
            r.wf(),
            r.len() == n,
            r.pos() == 0,
    {
        CyclingIdx::new_starting_at(n, 0)
    }

    /// A cycle of `n` positions starting at `idx`.
    pub fn new_starting_at(n: usize, idx: usize) -> (r: CyclingIdx)
        requires
            idx < n,
        ensures
            r.wf(),
            r.len() == n,
            r.pos() == idx,
    {
        CyclingIdx { idx, n }
    }

    /// The current position.
    pub fn current(&self) -> (r: usize)
        requires
            self.wf(),
        ensures
            r as int == self.pos(),
            r < self.len(),
    {
        self.idx
    }

    /// Step forward, wrapping past the end to the start.
    pub fn forward(&mut self)
        requires
            old(self).wf(),
        ensures
            final(self).wf(),
            final(self).len() == old(self).len(),
            final(self).pos() == (old(self).pos() + 1) % old(self).len(),
    {
        self.idx = self.idx + 1;
        if self.idx >= self.n {
            self.idx = 0;
            proof {
                assert(old(self).pos() + 1 == old(self).len());
                assert((old(self).pos() + 1) % old(self).len() == 0) by {
                    vstd::arithmetic::div_mod::lemma_mod_self_0(old(self).len());
                }
            }
        } else {
            proof {
                vstd::arithmetic::div_mod::lemma_small_mod(
                    (old(self).pos() + 1) as nat,
                    old(self).len() as nat,
                );
            }
        }
    }

    /// Step backward, wrapping past the start to the end.
    pub fn back(&mut self)
        requires
            old(self).wf(),
        ensures
            final(self).wf(),
            final(self).len() == old(self).len(),
            final(self).pos() == (old(self).pos() + old(self).len() - 1) % old(self).len(),
    {
        if self.idx == 0 {
            self.idx = self.n;
        }
        self.idx = self.idx - 1;
        proof {
            if old(self).pos() == 0 {
                vstd::arithmetic::div_mod::lemma_small_mod(
                    (old(self).len() - 1) as nat,
                    old(self).len() as nat,
                );
            } else {
                vstd::arithmetic::div_mod::lemma_fundamental_div_mod_converse(
                    old(self).pos() + old(self).len() - 1,
                    old(self).len(),
                    1,
                    old(self).pos() - 1,
                );
            }
        }
    }
}

} // verus!
