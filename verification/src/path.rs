//! Absolute filesystem paths, modelled as sequences of name components.
//!
//! The scanning engine never interprets the bytes of a component: it only
//! compares components for equality and paths for the ancestor/descendant
//! relation, so an absolute path is represented by the list of its components
//! below the filesystem root.

use vstd::prelude::*;

verus! {

/// An absolute filesystem path: the sequence of its name components below the
/// root. The root itself is the empty sequence.
#[derive(Hash, Debug)]
pub struct AbsPath {
    /// The name components, outermost first.
    pub segs: Vec<String>,
}

impl View for AbsPath {
    type V = Seq<Seq<char>>;

    open spec fn view(&self) -> Seq<Seq<char>> {
        self.segs@.map_values(|s: String| s@)
    }
}

/// `pre` names an ancestor of (or the same path as) `full`.
pub open spec fn is_prefix_of(pre: Seq<Seq<char>>, full: Seq<Seq<char>>) -> bool {
    pre.len() <= full.len() && forall|i: int| 0 <= i < pre.len() ==> pre[i] == full[i]
}

/// The prefix relation is reflexive.
pub proof fn lemma_prefix_refl(p: Seq<Seq<char>>)
    ensures
        is_prefix_of(p, p),
{
}

/// The prefix relation is transitive.
pub proof fn lemma_prefix_trans(a: Seq<Seq<char>>, b: Seq<Seq<char>>, c: Seq<Seq<char>>)
    requires
        is_prefix_of(a, b),
        is_prefix_of(b, c),
    ensures
        is_prefix_of(a, c),
{
}

/// Two prefixes of one path are comparable: the shorter is a prefix of the
/// longer.
pub proof fn lemma_prefix_comparable(a: Seq<Seq<char>>, b: Seq<Seq<char>>, c: Seq<Seq<char>>)
    requires
        is_prefix_of(a, c),
        is_prefix_of(b, c),
        a.len() <= b.len(),
    ensures
        is_prefix_of(a, b),
{
}

/// Equal-length prefixes of the same path are equal.
pub proof fn lemma_prefix_antisym(a: Seq<Seq<char>>, b: Seq<Seq<char>>)
    requires
        is_prefix_of(a, b),
        is_prefix_of(b, a),
    ensures
        a == b,
{
    assert(a =~= b);
}

impl AbsPath {
    /// The filesystem root, the path with no components.
    pub fn fs_root() -> (r: AbsPath)
        ensures
            r@ == Seq::<Seq<char>>::empty(),
    {
        let r = AbsPath { segs: Vec::new() };
        proof {
            assert(r@ =~= Seq::<Seq<char>>::empty());
        }
        r
    }

    /// Builds a path from its components.
    pub fn from_segs(segs: Vec<String>) -> (r: AbsPath)
        ensures
            r@ == segs@.map_values(|s: String| s@),
    {
        AbsPath { segs }
    }

    /// The number of components.
    pub fn depth(&self) -> (n: usize)
        ensures
            n == self@.len(),
    {
        self.segs.len()
    }

    /// The `i`-th component from the root.
    pub fn seg(&self, i: usize) -> (s: &String)
        requires
            i < self@.len(),
        ensures
            s@ == self@[i as int],
    {
        &self.segs[i]
    }

    /// The path of the child named `name`.
    pub fn join(&self, name: &String) -> (r: AbsPath)
        ensures
            r@ == self@.push(name@),
    {
        let mut segs = self.segs.clone();
        segs.push(name.clone());
        let r = AbsPath { segs };
        proof {
            assert(r@ =~= self@.push(name@));
        }
        r
    }

    /// The parent directory of a non-root path.
    pub fn parent(&self) -> (r: AbsPath)
        requires
            self@.len() > 0,
        ensures
            r@ == self@.drop_last(),
    {
        let mut segs = self.segs.clone();
        let _last = segs.pop();
        let r = AbsPath { segs };
        proof {
            assert(r@ =~= self@.drop_last());
        }
        r
    }

    /// Whether `other` is an ancestor of (or equal to) `self`.
    pub fn starts_with(&self, other: &AbsPath) -> (r: bool)
        ensures
            r == is_prefix_of(other@, self@),
    {
        if other.segs.len() > self.segs.len() {
            return false;
        }
        let mut i: usize = 0;
        while i < other.segs.len()
            invariant
                0 <= i <= other@.len(),
                other@.len() <= self@.len(),
                forall|j: int| 0 <= j < i ==> other@[j] == self@[j],
            decreases other@.len() - i,
        {
            if self.segs[i] == other.segs[i] {
                i = i + 1;
            } else {
                proof {
                    assert(!(self.segs@[i as int]@ == other.segs@[i as int]@));
                    assert(self@[i as int] == self.segs@[i as int]@);
                    assert(other@[i as int] == other.segs@[i as int]@);
                    assert(!is_prefix_of(other@, self@));
                }
                return false;
            }
        }
        true
    }
}

impl Clone for AbsPath {
    /// Cloning preserves the components.
    fn clone(&self) -> (r: Self)
        ensures
            r@ == self@,
    {
        let mut segs: Vec<String> = Vec::new();
        let mut i: usize = 0;
        while i < self.segs.len()
            invariant
                0 <= i <= self.segs@.len(),
                segs@.len() == i,
                forall|j: int| 0 <= j < i ==> segs@[j]@ == self.segs@[j]@,
            decreases self.segs@.len() - i,
        {
            segs.push(self.segs[i].clone());
            i = i + 1;
        }
        let r = AbsPath { segs };
        proof {
            assert(r@ =~= self@);
        }
        r
    }
}

impl PartialEq for AbsPath {
    /// Paths are equal when their components are.
    fn eq(&self, other: &Self) -> (r: bool) {
        if self.segs.len() != other.segs.len() {
            return false;
        }
        let mut i: usize = 0;
        while i < self.segs.len()
            invariant
                0 <= i <= self@.len(),
                self@.len() == other@.len(),
                forall|j: int| 0 <= j < i ==> self@[j] == other@[j],
            decreases self@.len() - i,
        {
            if self.segs[i] == other.segs[i] {
                i = i + 1;
            } else {
                proof {
                    assert(self@[i as int] == self.segs@[i as int]@);
                    assert(other@[i as int] == other.segs@[i as int]@);
                    assert(!(self@ == other@));
                }
                return false;
            }
        }
        proof {
            assert(self@ =~= other@);
        }
        true
    }
}

impl vstd::std_specs::cmp::PartialEqSpecImpl for AbsPath {
    open spec fn obeys_eq_spec() -> bool {
        true
    }

    open spec fn eq_spec(&self, other: &AbsPath) -> bool {
        self@ == other@
    }
}

impl Eq for AbsPath {

}

/// The longest common prefix of two paths: the nearest common ancestor.
pub fn max_common_path(a: &AbsPath, b: &AbsPath) -> (r: AbsPath)
    ensures
        is_prefix_of(r@, a@),
        is_prefix_of(r@, b@),
        r@.len() < a@.len() && r@.len() < b@.len() ==> a@[r@.len() as int] != b@[r@.len() as int],
{
    let mut segs: Vec<String> = Vec::new();
    let mut i: usize = 0;
    while i < a.depth() && i < b.depth()
        invariant
            0 <= i <= a@.len(),
            0 <= i <= b@.len(),
            segs@.len() == i,
            forall|j: int| 0 <= j < i ==> segs@[j]@ == a@[j] && a@[j] == b@[j],
        decreases a@.len() - i,
    {
        if *a.seg(i) == *b.seg(i) {
            segs.push(a.seg(i).clone());
            i = i + 1;
        } else {
            let r = AbsPath { segs };
            return r;
        }
    }
    let r = AbsPath { segs };
    r
}

/// Every common prefix of `a` and `b` is a prefix of their longest common
/// prefix.
pub proof fn lemma_common_prefix_longest(
    a: Seq<Seq<char>>,
    b: Seq<Seq<char>>,
    r: Seq<Seq<char>>,
    p: Seq<Seq<char>>,
)
    requires
        is_prefix_of(r, a),
        is_prefix_of(r, b),
        r.len() < a.len() && r.len() < b.len() ==> a[r.len() as int] != b[r.len() as int],
        is_prefix_of(p, a),
        is_prefix_of(p, b),
    ensures
        is_prefix_of(p, r),
{
    if p.len() > r.len() {
        assert(a[r.len() as int] == p[r.len() as int]);
        assert(b[r.len() as int] == p[r.len() as int]);
        assert(false);
    }
}

} // verus!
