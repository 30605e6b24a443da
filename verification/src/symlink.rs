//! Expansion of a skip path through its chain of symbolic links.
//!
//! A declared skip may be a symbolic link; the path it points to must be
//! skipped as well, and so on down the chain. The walk stops at the first
//! path that is not a link, and a link chain that closes on itself stops
//! instead of looping. The caller performs the link reads and feeds each
//! answer back.

use vstd::prelude::*;

use crate::path::AbsPath;

verus! {

/// The views of the paths on the chain.
pub open spec fn chain_view(s: Seq<AbsPath>) -> Seq<Seq<Seq<char>>> {
    s.map_values(|p: AbsPath| p@)
}

/// The walk down one skip path's chain of symbolic links. Feed it the link
/// target of its current path until it is finished; every path it has seen
/// belongs to the skip set.
pub struct SkipChain {
    /// The paths seen so far, in order; the first is the declared skip.
    pub chain: Vec<AbsPath>,
    /// Whether the walk is finished.
    pub done: bool,
}

impl SkipChain {
    /// The chain is well formed: it starts somewhere and never repeats a
    /// path, so a cyclic link chain cannot make it grow forever.
    pub open spec fn wf(&self) -> bool {
        self.chain@.len() >= 1 && chain_view(self.chain@).no_duplicates()
    }

    /// Begins the walk at a declared skip path.
    pub fn start(origin: AbsPath) -> (s: SkipChain)
        ensures
            s.wf(),
            !s.done,
            chain_view(s.chain@) == seq![origin@],
    {
        let mut chain: Vec<AbsPath> = Vec::new();
        chain.push(origin);
        let s = SkipChain { chain, done: false };
        proof {
            assert(chain_view(s.chain@) =~= seq![s.chain@[0]@]);
            assert forall|i: int, j: int|
                0 <= i < j < chain_view(s.chain@).len() implies chain_view(s.chain@)[i]
                != chain_view(s.chain@)[j] by {
            }
        }
        s
    }

    /// The path whose link target should be read next, or `None` when the
    /// walk is finished.
    pub fn current(&self) -> (r: Option<&AbsPath>)
        requires
            self.wf(),
        ensures
            match r {
                Some(p) => !self.done && p@ == self.chain@.last()@,
                None => self.done,
            },
    {
        if self.done {
            None
        } else {
            Some(&self.chain[self.chain.len() - 1])
        }
    }

    /// Feeds back what the filesystem said about the current path: the
    /// target it links to, or `None` when it is not a link (or does not
    /// exist). A fresh target joins the chain; a target already on the
    /// chain closes a cycle and finishes the walk instead of looping; a
    /// non-link finishes the walk.
    pub fn advance(&mut self, target: Option<AbsPath>)
        requires
            old(self).wf(),
            !old(self).done,
        ensures
            final(self).wf(),
            match target {
                None => final(self).done && final(self).chain@ == old(self).chain@,
                Some(t) => {
                    if chain_view(old(self).chain@).contains(t@) {
                        final(self).done && final(self).chain@ == old(self).chain@
                    } else {
                        !final(self).done && chain_view(final(self).chain@) == chain_view(
                            old(self).chain@,
                        ).push(t@)
                    }
                },
            },
    {
        match target {
            None => {
                self.done = true;
            },
            Some(t) => {
                let mut seen = false;
                let mut i: usize = 0;
                let ghost cv = chain_view(self.chain@);
                while i < self.chain.len()
                    invariant
                        0 <= i <= self.chain@.len(),
                        cv == chain_view(self.chain@),
                        cv.len() == self.chain@.len(),
                        seen ==> cv.contains(t@),
                        !seen ==> forall|j: int| 0 <= j < i ==> cv[j] != t@,
                    decreases self.chain@.len() - i,
                {
                    proof {
                        assert(cv[i as int] == self.chain@[i as int]@);
                    }
                    if self.chain[i] == t {
                        seen = true;
                    }
                    i = i + 1;
                }
                if seen {
                    self.done = true;
                } else {
                    proof {
                        if chain_view(self.chain@).contains(t@) {
                            let j = choose|j: int|
                                0 <= j < cv.len() && #[trigger] cv[j] == t@;
                        }
                    }
                    let ghost old_chain = self.chain@;
                    self.chain.push(t);
                    proof {
                        assert(chain_view(self.chain@) =~= chain_view(old_chain).push(
                            self.chain@.last()@,
                        ));
                        let newcv = chain_view(self.chain@);
                        assert forall|a: int, b: int|
                            0 <= a < b < newcv.len() implies newcv[a] != newcv[b] by {
                            if b < newcv.len() - 1 {
                                assert(chain_view(old_chain).no_duplicates());
                                assert(newcv[a] == chain_view(old_chain)[a]);
                                assert(newcv[b] == chain_view(old_chain)[b]);
                            } else {
                                assert(newcv[a] == chain_view(old_chain)[a]);
                                assert(!chain_view(old_chain).contains(newcv[b]));
                            }
                        }
                        assert(newcv.no_duplicates());
                    }
                }
            },
        }
    }

    /// Hands out every path seen on the chain: all of them belong to the
    /// skip set.
    pub fn into_paths(self) -> (r: Vec<AbsPath>)
        ensures
            r == self.chain,
    {
        self.chain
    }
}

} // verus!
