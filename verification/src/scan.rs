//! The recursive scanner: walks a directory tree, diffs every directory the
//! rules could touch, and prunes subtrees that cannot contribute — without
//! changing the outcome.

use vstd::prelude::*;

use crate::config::dirs_view;
use crate::config::Directory;
use crate::config::WalkConfig;
use crate::config::WalkConfigView;
use crate::path::is_prefix_of;
use crate::path::AbsPath;
use crate::tmutil::pathseq_view;
use crate::tmutil::ExclusionActionBatch;
use crate::walker::candidate_rule_set;
use crate::walker::diff_adds;
use crate::walker::diff_removes;
use crate::walker::dir_applicable;
use crate::walker::listing_view;

verus! {

/// One entry of an in-memory directory tree: a name, its current excluded
/// state, and — when it is a directory — its own entries.
#[derive(Debug)]
pub struct FsNode {
    /// The entry's name.
    pub name: String,
    /// Whether the backup-exclusion attribute is currently set on it.
    pub excluded: bool,
    /// Whether the entry is a directory.
    pub is_dir: bool,
    /// The entry's own entries, when it is a directory.
    pub children: Vec<FsNode>,
}

/// The height of a node: one more than that of its tallest child.
pub open spec fn node_height(n: FsNode) -> nat
    decreases n,
{
    1 + forest_height(n.children@)
}

/// The height of the tallest node of a forest.
pub open spec fn forest_height(cs: Seq<FsNode>) -> nat
    decreases cs,
        when cs.len() >= 0
    via forest_height_decreases
{
    if cs.len() == 0 {
        0
    } else {
        let rest = forest_height(cs.drop_last());
        let last = node_height(cs.last());
        if rest >= last {
            rest
        } else {
            last
        }
    }
}

#[via_fn]
proof fn forest_height_decreases(cs: Seq<FsNode>) {
    if cs.len() > 0 {
        assert(cs.last() == cs[cs.len() - 1]);
        assert(decreases_to!(cs => cs[cs.len() - 1]));
        assert(decreases_to!(cs => cs.drop_last()));
    }
}

/// No node outgrows its forest.
pub proof fn lemma_forest_height_bound(cs: Seq<FsNode>, i: int)
    requires
        0 <= i < cs.len(),
    ensures
        node_height(cs[i]) <= forest_height(cs),
    decreases cs.len(),
{
    if i == cs.len() - 1 {
        assert(cs.last() == cs[i]);
    } else {
        lemma_forest_height_bound(cs.drop_last(), i);
        assert(cs.drop_last()[i] == cs[i]);
    }
}

/// The shallow listing a scan of `path` observes from the entries `cs`:
/// each entry's name and excluded state, in order, leaving out entries
/// beneath a skip.
pub open spec fn spec_listing(
    path: Seq<Seq<char>>,
    cs: Seq<FsNode>,
    skips: Set<Seq<Seq<char>>>,
) -> Seq<(Seq<char>, bool)>
    decreases cs.len(),
{
    if cs.len() == 0 {
        Seq::empty()
    } else {
        let pre = spec_listing(path, cs.drop_last(), skips);
        let c = cs.last();
        if skips.contains(path.push(c.name@)) {
            pre
        } else {
            pre.push((c.name@, c.excluded))
        }
    }
}

/// Whether any configured directory applies at `path`.
pub open spec fn some_applicable(path: Seq<Seq<char>>, cfg: WalkConfigView) -> bool {
    exists|i: int| 0 <= i < cfg.directories.len() && dir_applicable(
        #[trigger] cfg.directories[i],
        path,
    )
}

/// The additions a pruning-free scan finds at `path` itself.
pub open spec fn here_adds(path: Seq<Seq<char>>, cs: Seq<FsNode>, cfg: WalkConfigView) -> Set<
    Seq<Seq<char>>,
> {
    if some_applicable(path, cfg) {
        diff_adds(
            path,
            spec_listing(path, cs, cfg.skips),
            spec_listing(path, cs, cfg.skips),
            candidate_rule_set(path, cfg.directories),
        ).to_set()
    } else {
        Set::empty()
    }
}

/// The removals a pruning-free scan finds at `path` itself.
pub open spec fn here_removes(path: Seq<Seq<char>>, cs: Seq<FsNode>, cfg: WalkConfigView) -> Set<
    Seq<Seq<char>>,
> {
    if some_applicable(path, cfg) {
        diff_removes(
            path,
            spec_listing(path, cs, cfg.skips),
            spec_listing(path, cs, cfg.skips),
            candidate_rule_set(path, cfg.directories),
        ).to_set()
    } else {
        Set::empty()
    }
}

/// Whether the scan may enter the child at all: only directories outside
/// the skips are ever entered.
pub open spec fn child_enterable(path: Seq<Seq<char>>, c: FsNode, cfg: WalkConfigView) -> bool {
    c.is_dir && !cfg.skips.contains(path.push(c.name@))
}

/// The additions of a pruning-free scan: the diff at every directory
/// reachable outside the skips, wherever some configured directory applies.
pub open spec fn naive_adds(path: Seq<Seq<char>>, cs: Seq<FsNode>, cfg: WalkConfigView) -> Set<
    Seq<Seq<char>>,
>
    decreases forest_height(cs), cs.len() + 1,
{
    here_adds(path, cs, cfg).union(naive_adds_children(path, cs, cs.len() as int, cfg))
}

/// The additions contributed by the first `k` children's subtrees.
pub open spec fn naive_adds_children(
    path: Seq<Seq<char>>,
    cs: Seq<FsNode>,
    k: int,
    cfg: WalkConfigView,
) -> Set<Seq<Seq<char>>>
    decreases forest_height(cs), k,
        when 0 <= k <= cs.len()
    via naive_adds_children_decreases
{
    if k <= 0 {
        Set::empty()
    } else {
        let rest = naive_adds_children(path, cs, k - 1, cfg);
        let c = cs[k - 1];
        if child_enterable(path, c, cfg) {
            rest.union(naive_adds(path.push(c.name@), c.children@, cfg))
        } else {
            rest
        }
    }
}

#[via_fn]
proof fn naive_adds_children_decreases(
    path: Seq<Seq<char>>,
    cs: Seq<FsNode>,
    k: int,
    cfg: WalkConfigView,
) {
    if k > 0 {
        lemma_forest_height_bound(cs, k - 1);
    }
}

/// The removals of a pruning-free scan.
pub open spec fn naive_removes(path: Seq<Seq<char>>, cs: Seq<FsNode>, cfg: WalkConfigView) -> Set<
    Seq<Seq<char>>,
>
    decreases forest_height(cs), cs.len() + 1,
{
    here_removes(path, cs, cfg).union(naive_removes_children(path, cs, cs.len() as int, cfg))
}

/// The removals contributed by the first `k` children's subtrees.
pub open spec fn naive_removes_children(
    path: Seq<Seq<char>>,
    cs: Seq<FsNode>,
    k: int,
    cfg: WalkConfigView,
) -> Set<Seq<Seq<char>>>
    decreases forest_height(cs), k,
        when 0 <= k <= cs.len()
    via naive_removes_children_decreases
{
    if k <= 0 {
        Set::empty()
    } else {
        let rest = naive_removes_children(path, cs, k - 1, cfg);
        let c = cs[k - 1];
        if child_enterable(path, c, cfg) {
            rest.union(naive_removes(path.push(c.name@), c.children@, cfg))
        } else {
            rest
        }
    }
}

#[via_fn]
proof fn naive_removes_children_decreases(
    path: Seq<Seq<char>>,
    cs: Seq<FsNode>,
    k: int,
    cfg: WalkConfigView,
) {
    if k > 0 {
        lemma_forest_height_bound(cs, k - 1);
    }
}

/// A directory entry that applies somewhere below `path` applies at `path`
/// itself.
pub proof fn lemma_applicable_lift(
    d: crate::config::DirectoryView,
    path: Seq<Seq<char>>,
    below: Seq<Seq<char>>,
)
    requires
        is_prefix_of(path, below),
        dir_applicable(d, below),
    ensures
        dir_applicable(d, path),
{
    if is_prefix_of(d.path, below) {
        if d.path.len() <= path.len() {
            crate::path::lemma_prefix_comparable(d.path, path, below);
        } else {
            crate::path::lemma_prefix_comparable(path, d.path, below);
        }
    } else {
        crate::path::lemma_prefix_trans(path, below, d.path);
    }
}

/// Where no configured directory applies, a pruning-free scan finds nothing
/// anywhere in the subtree.
pub proof fn lemma_naive_empty_inapplicable(
    path: Seq<Seq<char>>,
    cs: Seq<FsNode>,
    cfg: WalkConfigView,
)
    requires
        !some_applicable(path, cfg),
    ensures
        naive_adds(path, cs, cfg) == Set::<Seq<Seq<char>>>::empty(),
        naive_removes(path, cs, cfg) == Set::<Seq<Seq<char>>>::empty(),
    decreases forest_height(cs), cs.len() + 1,
{
    lemma_naive_children_empty_inapplicable(path, cs, cs.len() as int, cfg);
    assert(naive_adds(path, cs, cfg) =~= Set::<Seq<Seq<char>>>::empty());
    assert(naive_removes(path, cs, cfg) =~= Set::<Seq<Seq<char>>>::empty());
}

proof fn lemma_naive_children_empty_inapplicable(
    path: Seq<Seq<char>>,
    cs: Seq<FsNode>,
    k: int,
    cfg: WalkConfigView,
)
    requires
        0 <= k <= cs.len(),
        !some_applicable(path, cfg),
    ensures
        naive_adds_children(path, cs, k, cfg) == Set::<Seq<Seq<char>>>::empty(),
        naive_removes_children(path, cs, k, cfg) == Set::<Seq<Seq<char>>>::empty(),
    decreases forest_height(cs), k,
{
    if k > 0 {
        lemma_naive_children_empty_inapplicable(path, cs, k - 1, cfg);
        let c = cs[k - 1];
        if child_enterable(path, c, cfg) {
            let cpath = path.push(c.name@);
            assert(!some_applicable(cpath, cfg)) by {
                if some_applicable(cpath, cfg) {
                    let i = choose|i: int|
                        0 <= i < cfg.directories.len() && dir_applicable(
                            #[trigger] cfg.directories[i],
                            cpath,
                        );
                    assert(is_prefix_of(path, cpath)) by {
                        assert(cpath == path.push(c.name@));
                    }
                    lemma_applicable_lift(cfg.directories[i], path, cpath);
                }
            }
            lemma_forest_height_bound(cs, k - 1);
            lemma_naive_empty_inapplicable(cpath, c.children@, cfg);
        }
        assert(naive_adds_children(path, cs, k, cfg) =~= Set::<Seq<Seq<char>>>::empty());
        assert(naive_removes_children(path, cs, k, cfg) =~= Set::<Seq<Seq<char>>>::empty());
    } else {
        assert(naive_adds_children(path, cs, k, cfg) =~= Set::<Seq<Seq<char>>>::empty());
        assert(naive_removes_children(path, cs, k, cfg) =~= Set::<Seq<Seq<char>>>::empty());
    }
}

/// The rule-of-thumb that lets the scanner leave a child's subtree alone:
/// the child is already excluded and not about to be re-included, or it is
/// about to be excluded — either way its subtree is covered by the
/// exclusion above it.
pub open spec fn child_satisfied(
    path: Seq<Seq<char>>,
    cs: Seq<FsNode>,
    c: FsNode,
    cfg: WalkConfigView,
) -> bool {
    let listing = spec_listing(path, cs, cfg.skips);
    let adds = diff_adds(path, listing, listing, candidate_rule_set(path, cfg.directories));
    let removes = diff_removes(path, listing, listing, candidate_rule_set(path, cfg.directories));
    ((c.excluded && !removes.contains(path.push(c.name@))) || adds.contains(path.push(c.name@)))
        && some_applicable(path, cfg)
}

/// A tree is settled when every subtree the scanner would leave alone as
/// already satisfied truly contributes nothing, all the way down.
pub open spec fn settled(path: Seq<Seq<char>>, cs: Seq<FsNode>, cfg: WalkConfigView) -> bool
    decreases forest_height(cs), cs.len() + 1,
{
    settled_children(path, cs, cs.len() as int, cfg)
}

/// The settled condition over the first `k` children.
pub open spec fn settled_children(
    path: Seq<Seq<char>>,
    cs: Seq<FsNode>,
    k: int,
    cfg: WalkConfigView,
) -> bool
    decreases forest_height(cs), k,
        when 0 <= k <= cs.len()
    via settled_children_decreases
{
    if k <= 0 {
        true
    } else {
        let c = cs[k - 1];
        let cpath = path.push(c.name@);
        &&& settled_children(path, cs, k - 1, cfg)
        &&& (child_enterable(path, c, cfg) && child_satisfied(path, cs, c, cfg) ==> naive_adds(
            cpath,
            c.children@,
            cfg,
        ) == Set::<Seq<Seq<char>>>::empty() && naive_removes(cpath, c.children@, cfg) == Set::<
            Seq<Seq<char>>,
        >::empty())
        &&& (child_enterable(path, c, cfg) && !child_satisfied(path, cs, c, cfg) ==> settled(
            cpath,
            c.children@,
            cfg,
        ))
    }
}

#[via_fn]
proof fn settled_children_decreases(
    path: Seq<Seq<char>>,
    cs: Seq<FsNode>,
    k: int,
    cfg: WalkConfigView,
) {
    if k > 0 {
        lemma_forest_height_bound(cs, k - 1);
    }
}

/// The additions of the thrifty scan itself: the diff where something
/// applies, entering only children that are directories, outside the skips,
/// and not already satisfied.
pub open spec fn pruned_adds(path: Seq<Seq<char>>, cs: Seq<FsNode>, cfg: WalkConfigView) -> Set<
    Seq<Seq<char>>,
>
    decreases forest_height(cs), cs.len() + 1,
{
    if !some_applicable(path, cfg) {
        Set::empty()
    } else {
        here_adds(path, cs, cfg).union(pruned_adds_children(path, cs, cs.len() as int, cfg))
    }
}

/// The additions the thrifty scan gathers from the first `k` children.
pub open spec fn pruned_adds_children(
    path: Seq<Seq<char>>,
    cs: Seq<FsNode>,
    k: int,
    cfg: WalkConfigView,
) -> Set<Seq<Seq<char>>>
    decreases forest_height(cs), k,
        when 0 <= k <= cs.len()
    via pruned_adds_children_decreases
{
    if k <= 0 {
        Set::empty()
    } else {
        let rest = pruned_adds_children(path, cs, k - 1, cfg);
        let c = cs[k - 1];
        if child_enterable(path, c, cfg) && !child_satisfied(path, cs, c, cfg) {
            rest.union(pruned_adds(path.push(c.name@), c.children@, cfg))
        } else {
            rest
        }
    }
}

#[via_fn]
proof fn pruned_adds_children_decreases(
    path: Seq<Seq<char>>,
    cs: Seq<FsNode>,
    k: int,
    cfg: WalkConfigView,
) {
    if k > 0 {
        lemma_forest_height_bound(cs, k - 1);
    }
}

/// The removals of the thrifty scan itself.
pub open spec fn pruned_removes(path: Seq<Seq<char>>, cs: Seq<FsNode>, cfg: WalkConfigView) -> Set<
    Seq<Seq<char>>,
>
    decreases forest_height(cs), cs.len() + 1,
{
    if !some_applicable(path, cfg) {
        Set::empty()
    } else {
        here_removes(path, cs, cfg).union(pruned_removes_children(path, cs, cs.len() as int, cfg))
    }
}

/// The removals the thrifty scan gathers from the first `k` children.
pub open spec fn pruned_removes_children(
    path: Seq<Seq<char>>,
    cs: Seq<FsNode>,
    k: int,
    cfg: WalkConfigView,
) -> Set<Seq<Seq<char>>>
    decreases forest_height(cs), k,
        when 0 <= k <= cs.len()
    via pruned_removes_children_decreases
{
    if k <= 0 {
        Set::empty()
    } else {
        let rest = pruned_removes_children(path, cs, k - 1, cfg);
        let c = cs[k - 1];
        if child_enterable(path, c, cfg) && !child_satisfied(path, cs, c, cfg) {
            rest.union(pruned_removes(path.push(c.name@), c.children@, cfg))
        } else {
            rest
        }
    }
}

#[via_fn]
proof fn pruned_removes_children_decreases(
    path: Seq<Seq<char>>,
    cs: Seq<FsNode>,
    k: int,
    cfg: WalkConfigView,
) {
    if k > 0 {
        lemma_forest_height_bound(cs, k - 1);
    }
}

/// Advances the progress sampling counter of a long scan: it counts
/// directories and wraps after about a thousand, and the driver samples the
/// current path exactly when the counter it read was zero.
pub fn progress_tick(i: usize) -> (r: usize)
    ensures
        r == if i > 1000 {
            0int
        } else {
            i + 1
        },
{
    if i > 1000 {
        0
    } else {
        i + 1
    }
}

/// Whether the exact path is in the list.
pub(crate) fn contains_path(v: &Vec<AbsPath>, p: &AbsPath) -> (r: bool)
    ensures
        r == pathseq_view(v@).contains(p@),
{
    let mut i: usize = 0;
    while i < v.len()
        invariant
            0 <= i <= v@.len(),
            forall|j: int| 0 <= j < i ==> #[trigger] v@[j]@ != p@,
        decreases v@.len() - i,
    {
        if v[i] == *p {
            proof {
                assert(pathseq_view(v@)[i as int] == p@);
            }
            return true;
        }
        i = i + 1;
    }
    proof {
        if pathseq_view(v@).contains(p@) {
            let j = choose|j: int|
                0 <= j < pathseq_view(v@).len() && #[trigger] pathseq_view(v@)[j] == p@;
            assert(v@[j]@ == p@);
        }
    }
    false
}

/// Concatenating path lists unions their path sets.
proof fn lemma_pathset_concat(a: Seq<AbsPath>, b: Seq<AbsPath>)
    ensures
        pathseq_view(a + b).to_set() == pathseq_view(a).to_set().union(pathseq_view(b).to_set()),
{
    assert forall|p: Seq<Seq<char>>| #[trigger] pathseq_view(a + b).to_set().contains(p) implies
        pathseq_view(a).to_set().union(pathseq_view(b).to_set()).contains(p) by {
        let i = choose|i: int|
            0 <= i < pathseq_view(a + b).len() && pathseq_view(a + b)[i] == p;
        if i < a.len() {
            assert(pathseq_view(a)[i] == (a + b)[i]@);
            assert(pathseq_view(a).contains(p));
        } else {
            assert(pathseq_view(b)[i - a.len()] == (a + b)[i]@);
            assert(pathseq_view(b).contains(p));
        }
    }
    assert forall|p: Seq<Seq<char>>|
        pathseq_view(a).to_set().union(pathseq_view(b).to_set()).contains(p) implies
        #[trigger] pathseq_view(a + b).to_set().contains(p) by {
        if pathseq_view(a).to_set().contains(p) {
            let i = choose|i: int| 0 <= i < pathseq_view(a).len() && pathseq_view(a)[i] == p;
            assert(pathseq_view(a + b)[i] == (a + b)[i]@);
            assert(pathseq_view(a + b)[i] == p);
        } else {
            let i = choose|i: int| 0 <= i < pathseq_view(b).len() && pathseq_view(b)[i] == p;
            assert(pathseq_view(a + b)[a.len() + i] == (a + b)[a.len() + i]@);
            assert(pathseq_view(a + b)[a.len() + i] == p);
        }
    }
    assert(pathseq_view(a + b).to_set() =~= pathseq_view(a).to_set().union(
        pathseq_view(b).to_set(),
    ));
}

/// Builds the shallow listing of a directory's in-memory entries: each
/// entry's name and excluded state, in order, leaving out entries beneath a
/// skip.
fn tree_listing(path: &AbsPath, children: &Vec<FsNode>, config: &WalkConfig) -> (r: Vec<
    (String, bool),
>)
    ensures
        listing_view(r@) == spec_listing(path@, children@, config@.skips),
{
    let mut out: Vec<(String, bool)> = Vec::new();
    let mut i: usize = 0;
    proof {
        assert(children@.take(0) =~= Seq::<FsNode>::empty());
        assert(listing_view(out@) =~= spec_listing(path@, children@.take(0), config@.skips));
    }
    while i < children.len()
        invariant
            0 <= i <= children@.len(),
            listing_view(out@) == spec_listing(path@, children@.take(i as int), config@.skips),
        decreases children@.len() - i,
    {
        proof {
            assert(children@.take(i + 1).drop_last() =~= children@.take(i as int));
            assert(children@.take(i + 1).last() == children@[i as int]);
        }
        let c = &children[i];
        let cpath = path.join(&c.name);
        if !crate::walker::path_in_skips(&cpath, &config.skips) {
            let ghost old_lv = listing_view(out@);
            out.push((c.name.clone(), c.excluded));
            proof {
                assert(listing_view(out@) =~= old_lv.push((children@[i as int].name@, children@[i as int].excluded)));
            }
        }
        i = i + 1;
    }
    proof {
        assert(children@.take(children@.len() as int) =~= children@);
    }
    out
}

/// The recursive scanner over an in-memory tree: the batch a full scan of
/// the entries of `path` produces.
///
/// The scanner works only where some configured directory applies, never
/// enters a skipped path, and leaves a child's subtree alone once the child
/// is excluded and staying so, or about to be excluded. Its actions are, as
/// sets, exactly [`pruned_adds`] and [`pruned_removes`] — the merge of the
/// diffs at the directories it visits — and on every tree a subset of a
/// pruning-free scan's. On a settled tree the thrift changes nothing: the
/// sets equal the pruning-free scan's exactly.
pub fn scan_forest(path: &AbsPath, children: &Vec<FsNode>, config: &WalkConfig) -> (r:
    ExclusionActionBatch)
    ensures
        !some_applicable(path@, config@) ==> r.add@.len() == 0 && r.remove@.len() == 0,
        pathseq_view(r.add@).to_set() == pruned_adds(path@, children@, config@),
        pathseq_view(r.remove@).to_set() == pruned_removes(path@, children@, config@),
        pathseq_view(r.add@).to_set().subset_of(naive_adds(path@, children@, config@)),
        pathseq_view(r.remove@).to_set().subset_of(naive_removes(path@, children@, config@)),
        settled(path@, children@, config@) ==> pathseq_view(r.add@).to_set() == naive_adds(
            path@,
            children@,
            config@,
        ) && pathseq_view(r.remove@).to_set() == naive_removes(path@, children@, config@),
    decreases forest_height(children@),
{
    let ghost cs = children@;
    let ghost cfg = config@;
    if !crate::walker::some_dir_applicable(path, &config.directories) {
        let r = ExclusionActionBatch::new();
        proof {
            lemma_naive_empty_inapplicable(path@, cs, cfg);
            assert(pathseq_view(r.add@).to_set() =~= Set::<Seq<Seq<char>>>::empty());
            assert(pathseq_view(r.remove@).to_set() =~= Set::<Seq<Seq<char>>>::empty());
            assert(pruned_adds(path@, cs, cfg) =~= Set::<Seq<Seq<char>>>::empty());
            assert(pruned_removes(path@, cs, cfg) =~= Set::<Seq<Seq<char>>>::empty());
        }
        return r;
    }
    let listing = tree_listing(path, children, config);
    let diff = crate::walker::generate_diff(path, &listing, &config.directories);
    let ghost lv = spec_listing(path@, cs, cfg.skips);
    let ghost rules = candidate_rule_set(path@, cfg.directories);
    proof {
        assert(here_adds(path@, cs, cfg) == diff_adds(path@, lv, lv, rules).to_set());
        assert(here_removes(path@, cs, cfg) == diff_removes(path@, lv, lv, rules).to_set());
    }
    let mut acc = ExclusionActionBatch::new();
    let mut i: usize = 0;
    proof {
        assert(pathseq_view(acc.add@).to_set() =~= Set::<Seq<Seq<char>>>::empty());
        assert(pathseq_view(acc.remove@).to_set() =~= Set::<Seq<Seq<char>>>::empty());
        assert(naive_adds_children(path@, cs, 0, cfg) =~= Set::<Seq<Seq<char>>>::empty());
        assert(naive_removes_children(path@, cs, 0, cfg) =~= Set::<Seq<Seq<char>>>::empty());
        assert(pruned_adds_children(path@, cs, 0, cfg) =~= Set::<Seq<Seq<char>>>::empty());
        assert(pruned_removes_children(path@, cs, 0, cfg) =~= Set::<Seq<Seq<char>>>::empty());
    }
    while i < children.len()
        invariant
            0 <= i <= cs.len(),
            cs == children@,
            cfg == config@,
            lv == spec_listing(path@, cs, cfg.skips),
            rules == candidate_rule_set(path@, cfg.directories),
            pathseq_view(diff.add@) == diff_adds(path@, lv, lv, rules),
            pathseq_view(diff.remove@) == diff_removes(path@, lv, lv, rules),
            some_applicable(path@, cfg),
            pathseq_view(acc.add@).to_set() == pruned_adds_children(path@, cs, i as int, cfg),
            pathseq_view(acc.remove@).to_set() == pruned_removes_children(
                path@,
                cs,
                i as int,
                cfg,
            ),
            pathseq_view(acc.add@).to_set().subset_of(
                naive_adds_children(path@, cs, i as int, cfg),
            ),
            pathseq_view(acc.remove@).to_set().subset_of(
                naive_removes_children(path@, cs, i as int, cfg),
            ),
            settled(path@, cs, cfg) ==> pathseq_view(acc.add@).to_set() == naive_adds_children(
                path@,
                cs,
                i as int,
                cfg,
            ) && pathseq_view(acc.remove@).to_set() == naive_removes_children(
                path@,
                cs,
                i as int,
                cfg,
            ),
        decreases cs.len() - i,
    {
        let c = &children[i];
        let cpath = path.join(&c.name);
        let ghost cnode = cs[i as int];
        proof {
            assert(cpath@ == path@.push(cnode.name@));
        }
        let enter = c.is_dir && !crate::walker::path_in_skips(&cpath, &config.skips);
        let satisfied = (c.excluded && !contains_path(&diff.remove, &cpath)) || contains_path(
            &diff.add,
            &cpath,
        );
        proof {
            if settled(path@, cs, cfg) {
                assert(settled_children(path@, cs, cs.len() as int, cfg));
                lemma_settled_children_prefix(path@, cs, cs.len() as int, i + 1, cfg);
                assert(settled_children(path@, cs, i + 1, cfg));
            }
            assert(enter == child_enterable(path@, cnode, cfg));
            assert(satisfied == ((cnode.excluded && !diff_removes(path@, lv, lv, rules).contains(
                path@.push(cnode.name@),
            )) || diff_adds(path@, lv, lv, rules).contains(path@.push(cnode.name@))));
            assert((enter && satisfied) == (child_enterable(path@, cnode, cfg)
                && child_satisfied(path@, cs, cnode, cfg)));
            assert((enter && !satisfied) == (child_enterable(path@, cnode, cfg)
                && !child_satisfied(path@, cs, cnode, cfg)));
        }
        if enter && !satisfied {
            proof {
                lemma_forest_height_bound(cs, i as int);
                assert(forest_height(cnode.children@) < forest_height(cs));
            }
            let sub = scan_forest(&cpath, &c.children, config);
            let ghost old_add = acc.add@;
            let ghost old_remove = acc.remove@;
            let ghost sub_add = sub.add@;
            let ghost sub_remove = sub.remove@;
            acc.merge(sub);
            proof {
                lemma_pathset_concat(old_add, sub_add);
                lemma_pathset_concat(old_remove, sub_remove);
                assert(pathseq_view(acc.add@).to_set() =~= pruned_adds_children(
                    path@,
                    cs,
                    i + 1,
                    cfg,
                ));
                assert(pathseq_view(acc.remove@).to_set() =~= pruned_removes_children(
                    path@,
                    cs,
                    i + 1,
                    cfg,
                ));
                assert forall|p: Seq<Seq<char>>|
                    pathseq_view(acc.add@).to_set().contains(p) implies naive_adds_children(
                    path@,
                    cs,
                    i + 1,
                    cfg,
                ).contains(p) by {
                    if pathseq_view(old_add).to_set().contains(p) {
                        assert(naive_adds_children(path@, cs, i as int, cfg).contains(p));
                    } else {
                        assert(pathseq_view(sub_add).to_set().contains(p));
                        assert(naive_adds(cpath@, cnode.children@, cfg).contains(p));
                    }
                }
                assert forall|p: Seq<Seq<char>>|
                    pathseq_view(acc.remove@).to_set().contains(p) implies naive_removes_children(
                    path@,
                    cs,
                    i + 1,
                    cfg,
                ).contains(p) by {
                    if pathseq_view(old_remove).to_set().contains(p) {
                        assert(naive_removes_children(path@, cs, i as int, cfg).contains(p));
                    } else {
                        assert(pathseq_view(sub_remove).to_set().contains(p));
                        assert(naive_removes(cpath@, cnode.children@, cfg).contains(p));
                    }
                }
                if settled(path@, cs, cfg) {
                    // This child's subtree is scanned in full; its
                    // contribution is the naive one.
                    assert(settled(cpath@, cnode.children@, cfg));
                    assert(pathseq_view(sub_add).to_set() == naive_adds(
                        cpath@,
                        cnode.children@,
                        cfg,
                    ));
                    assert(pathseq_view(acc.add@).to_set() =~= naive_adds_children(
                        path@,
                        cs,
                        i + 1,
                        cfg,
                    ));
                    assert(pathseq_view(acc.remove@).to_set() =~= naive_removes_children(
                        path@,
                        cs,
                        i + 1,
                        cfg,
                    ));
                }
            }
        } else {
            proof {
                assert(pathseq_view(acc.add@).to_set() =~= pruned_adds_children(
                    path@,
                    cs,
                    i + 1,
                    cfg,
                ));
                assert(pathseq_view(acc.remove@).to_set() =~= pruned_removes_children(
                    path@,
                    cs,
                    i + 1,
                    cfg,
                ));
                assert forall|p: Seq<Seq<char>>|
                    pathseq_view(acc.add@).to_set().contains(p) implies naive_adds_children(
                    path@,
                    cs,
                    i + 1,
                    cfg,
                ).contains(p) by {
                    assert(naive_adds_children(path@, cs, i as int, cfg).contains(p));
                }
                assert forall|p: Seq<Seq<char>>|
                    pathseq_view(acc.remove@).to_set().contains(p) implies naive_removes_children(
                    path@,
                    cs,
                    i + 1,
                    cfg,
                ).contains(p) by {
                    assert(naive_removes_children(path@, cs, i as int, cfg).contains(p));
                }
                if settled(path@, cs, cfg) {
                    if enter {
                        // Already satisfied: on a settled tree the subtree
                        // contributes nothing.
                        assert(naive_adds(cpath@, cnode.children@, cfg) == Set::<
                            Seq<Seq<char>>,
                        >::empty());
                        assert(naive_removes(cpath@, cnode.children@, cfg) == Set::<
                            Seq<Seq<char>>,
                        >::empty());
                    }
                    assert(pathseq_view(acc.add@).to_set() =~= naive_adds_children(
                        path@,
                        cs,
                        i + 1,
                        cfg,
                    ));
                    assert(pathseq_view(acc.remove@).to_set() =~= naive_removes_children(
                        path@,
                        cs,
                        i + 1,
                        cfg,
                    ));
                }
            }
        }
        i = i + 1;
    }
    let mut result = diff;
    let ghost diff_add = result.add@;
    let ghost diff_remove = result.remove@;
    let ghost acc_add = acc.add@;
    let ghost acc_remove = acc.remove@;
    result.merge(acc);
    proof {
        lemma_pathset_concat(diff_add, acc_add);
        lemma_pathset_concat(diff_remove, acc_remove);
        assert(pathseq_view(result.add@).to_set() =~= pruned_adds(path@, cs, cfg));
        assert(pathseq_view(result.remove@).to_set() =~= pruned_removes(path@, cs, cfg));
        assert forall|p: Seq<Seq<char>>|
            pathseq_view(result.add@).to_set().contains(p) implies naive_adds(
            path@,
            cs,
            cfg,
        ).contains(p) by {
            if pathseq_view(diff_add).to_set().contains(p) {
                assert(here_adds(path@, cs, cfg).contains(p));
            } else {
                assert(naive_adds_children(path@, cs, cs.len() as int, cfg).contains(p));
            }
        }
        assert forall|p: Seq<Seq<char>>|
            pathseq_view(result.remove@).to_set().contains(p) implies naive_removes(
            path@,
            cs,
            cfg,
        ).contains(p) by {
            if pathseq_view(diff_remove).to_set().contains(p) {
                assert(here_removes(path@, cs, cfg).contains(p));
            } else {
                assert(naive_removes_children(path@, cs, cs.len() as int, cfg).contains(p));
            }
        }
        if settled(path@, cs, cfg) {
            assert(pathseq_view(result.add@).to_set() =~= naive_adds(path@, cs, cfg));
            assert(pathseq_view(result.remove@).to_set() =~= naive_removes(path@, cs, cfg));
        }
    }
    result
}

/// Narrows a configuration to what can still matter at or below `path`:
/// directory entries that apply at `path`, and skips that lie below it.
/// Nothing observable changes: at `path` and below, the applicable rule set
/// and the skip membership are those of the full configuration — dropping
/// the rest is free.
pub fn prune_config(path: &AbsPath, config: &WalkConfig) -> (r: WalkConfig)
    ensures
        forall|k: int| 0 <= k < r@.directories.len() ==> dir_applicable(
            #[trigger] r@.directories[k],
            path@,
        ) && exists|j: int|
            0 <= j < config@.directories.len() && #[trigger] config@.directories[j]
                == r@.directories[k],
        forall|p: Seq<Seq<char>>| is_prefix_of(path@, p) ==> #[trigger] candidate_rule_set(
            p,
            r@.directories,
        ) == candidate_rule_set(p, config@.directories),
        forall|q: Seq<Seq<char>>| is_prefix_of(path@, q) ==> (#[trigger] r@.skips.contains(q)
            <==> config@.skips.contains(q)),
        r@.directories.len() == 0 ==> (forall|p: Seq<Seq<char>>| is_prefix_of(path@, p)
            ==> !some_applicable(p, config@)),
{
    let ghost full = dirs_view(config.directories@);
    let mut directories: Vec<Directory> = Vec::new();
    let mut i: usize = 0;
    while i < config.directories.len()
        invariant
            0 <= i <= full.len(),
            full == dirs_view(config.directories@),
            full.len() == config.directories@.len(),
            forall|k: int| 0 <= k < directories@.len() ==> dir_applicable(
                #[trigger] directories@[k]@,
                path@,
            ) && exists|j: int| 0 <= j < full.len() && #[trigger] full[j] == directories@[k]@,
            forall|j: int| 0 <= j < i && dir_applicable(#[trigger] full[j], path@) ==> exists|
                k: int,
            | 0 <= k < directories@.len() && #[trigger] directories@[k]@ == full[j],
        decreases full.len() - i,
    {
        proof {
            assert(full[i as int] == config.directories@[i as int]@);
        }
        if config.directories[i].path.starts_with(path) || path.starts_with(
            &config.directories[i].path,
        ) {
            let ghost old_dirs = directories@;
            directories.push(config.directories[i].clone());
            proof {
                assert(directories@[old_dirs.len() as int]@ == full[i as int]);
                assert forall|j: int|
                    0 <= j < i + 1 && dir_applicable(#[trigger] full[j], path@) implies exists|
                    k: int,
                | 0 <= k < directories@.len() && #[trigger] directories@[k]@ == full[j] by {
                    if j < i {
                        let k = choose|k: int|
                            0 <= k < old_dirs.len() && #[trigger] old_dirs[k]@ == full[j];
                        assert(directories@[k]@ == full[j]);
                    } else {
                        assert(directories@[old_dirs.len() as int]@ == full[j]);
                    }
                }
            }
        }
        i = i + 1;
    }
    let ghost old_skips = config.skips@;
    let mut skips: Vec<AbsPath> = Vec::new();
    let mut s: usize = 0;
    while s < config.skips.len()
        invariant
            0 <= s <= old_skips.len(),
            old_skips == config.skips@,
            forall|k: int| 0 <= k < skips@.len() ==> is_prefix_of(path@, #[trigger] skips@[k]@)
                && exists|j: int| 0 <= j < old_skips.len() && #[trigger] old_skips[j]@
                == skips@[k]@,
            forall|j: int| 0 <= j < s && is_prefix_of(path@, #[trigger] old_skips[j]@) ==> exists|
                k: int,
            | 0 <= k < skips@.len() && #[trigger] skips@[k]@ == old_skips[j]@,
        decreases old_skips.len() - s,
    {
        if config.skips[s].starts_with(path) {
            let ghost pre = skips@;
            skips.push(config.skips[s].clone());
            proof {
                assert(skips@[pre.len() as int]@ == old_skips[s as int]@);
                assert forall|j: int|
                    0 <= j < s + 1 && is_prefix_of(path@, #[trigger] old_skips[j]@) implies
                    exists|k: int|
                    0 <= k < skips@.len() && #[trigger] skips@[k]@ == old_skips[j]@ by {
                    if j < s {
                        let k = choose|k: int|
                            0 <= k < pre.len() && #[trigger] pre[k]@ == old_skips[j]@;
                        assert(skips@[k]@ == old_skips[j]@);
                    } else {
                        assert(skips@[pre.len() as int]@ == old_skips[j]@);
                    }
                }
            }
        }
        s = s + 1;
    }
    let r = WalkConfig { directories, skips };
    proof {
        assert forall|k: int| 0 <= k < r@.directories.len() implies dir_applicable(
            #[trigger] r@.directories[k],
            path@,
        ) && exists|j: int|
            0 <= j < config@.directories.len() && #[trigger] config@.directories[j]
                == r@.directories[k] by {
            assert(r@.directories[k] == r.directories@[k]@);
            let j = choose|j: int| 0 <= j < full.len() && #[trigger] full[j] == r.directories@[k]@;
            assert(config@.directories[j] == r@.directories[k]);
        }
        let pruned = dirs_view(r.directories@);
        assert forall|p: Seq<Seq<char>>| is_prefix_of(path@, p) implies #[trigger] candidate_rule_set(
            p,
            pruned,
        ) == candidate_rule_set(p, full) by {
            assert forall|rv: crate::config::RuleView|
                #[trigger] candidate_rule_set(p, pruned).contains(rv) implies candidate_rule_set(
                p,
                full,
            ).contains(rv) by {
                let k = choose|k: int|
                    0 <= k < pruned.len() && dir_applicable(#[trigger] pruned[k], p)
                        && pruned[k].rules.contains(rv);
                assert(pruned[k] == r.directories@[k]@);
                let j = choose|j: int| 0 <= j < full.len() && #[trigger] full[j] == pruned[k];
            }
            assert forall|rv: crate::config::RuleView|
                candidate_rule_set(p, full).contains(rv) implies #[trigger] candidate_rule_set(
                p,
                pruned,
            ).contains(rv) by {
                let j = choose|j: int|
                    0 <= j < full.len() && dir_applicable(#[trigger] full[j], p)
                        && full[j].rules.contains(rv);
                lemma_applicable_lift(full[j], path@, p);
                let k = choose|k: int|
                    0 <= k < r.directories@.len() && #[trigger] r.directories@[k]@ == full[j];
                assert(pruned[k] == full[j]);
            }
            assert(candidate_rule_set(p, pruned) =~= candidate_rule_set(p, full));
        }
        assert forall|q: Seq<Seq<char>>| is_prefix_of(path@, q) implies (
        #[trigger] r@.skips.contains(q) <==> config@.skips.contains(q)) by {
            crate::config::lemma_skips_view_contains(r.skips@, q);
            crate::config::lemma_skips_view_contains(config.skips@, q);
            if r@.skips.contains(q) {
                let k = choose|k: int| #![trigger r.skips@[k]] 0 <= k < r.skips@.len()
                    && r.skips@[k]@ == q;
                let j = choose|j: int|
                    0 <= j < old_skips.len() && #[trigger] old_skips[j]@ == r.skips@[k]@;
            }
            if config@.skips.contains(q) {
                let j = choose|j: int| #![trigger config.skips@[j]] 0 <= j < config.skips@.len()
                    && config.skips@[j]@ == q;
                let k = choose|k: int|
                    0 <= k < r.skips@.len() && #[trigger] r.skips@[k]@ == old_skips[j]@;
            }
        }
        if r.directories@.len() == 0 {
            assert forall|p: Seq<Seq<char>>| is_prefix_of(path@, p) implies !some_applicable(
                p,
                config@,
            ) by {
                if some_applicable(p, config@) {
                    let j = choose|j: int|
                        0 <= j < full.len() && dir_applicable(#[trigger] full[j], p);
                    lemma_applicable_lift(full[j], path@, p);
                    let k = choose|k: int|
                        0 <= k < r.directories@.len() && #[trigger] r.directories@[k]@
                            == full[j];
                }
            }
        }
    }
    r
}

/// One directory's worth of the real recursive walk: from the observed
/// entries of `path`, the actions for this directory, which entries to
/// descend into, and the configuration narrowed for the subtree. The walk
/// driver feeds each directory it reads through this step.
pub fn scan_step(path: &AbsPath, entries: &Vec<FsNode>, config: &WalkConfig) -> (r: (
    ExclusionActionBatch,
    Vec<bool>,
    WalkConfig,
))
    ensures
        ({
            let (batch, descend, pruned) = r;
            let lv = spec_listing(path@, entries@, config@.skips);
            let rules = candidate_rule_set(path@, config@.directories);
            &&& descend@.len() == entries@.len()
            &&& (pruned@.directories.len() == 0 ==> batch.add@.len() == 0 && batch.remove@.len()
                == 0 && forall|i: int| 0 <= i < descend@.len() ==> !(#[trigger] descend@[i]))
            &&& (pruned@.directories.len() > 0 ==> pathseq_view(batch.add@) == diff_adds(
                path@,
                lv,
                lv,
                rules,
            ) && pathseq_view(batch.remove@) == diff_removes(path@, lv, lv, rules) && forall|
                i: int,
            |
                0 <= i < entries@.len() ==> #[trigger] descend@[i] == (child_enterable(
                    path@,
                    entries@[i],
                    config@,
                ) && !child_satisfied(path@, entries@, entries@[i], config@)))
            &&& (forall|p: Seq<Seq<char>>| is_prefix_of(path@, p)
                ==> #[trigger] candidate_rule_set(p, pruned@.directories) == candidate_rule_set(
                p,
                config@.directories,
            ))
            &&& (forall|q: Seq<Seq<char>>| is_prefix_of(path@, q)
                ==> (#[trigger] pruned@.skips.contains(q) <==> config@.skips.contains(q)))
        }),
{
    let pruned = prune_config(path, config);
    if pruned.directories.len() == 0 {
        let batch = ExclusionActionBatch::new();
        let mut descend: Vec<bool> = Vec::new();
        let mut i: usize = 0;
        while i < entries.len()
            invariant
                0 <= i <= entries@.len(),
                descend@.len() == i,
                forall|j: int| 0 <= j < i ==> !(#[trigger] descend@[j]),
            decreases entries@.len() - i,
        {
            descend.push(false);
            i = i + 1;
        }
        return (batch, descend, pruned);
    }
    let ghost lv = spec_listing(path@, entries@, config@.skips);
    let ghost rules = candidate_rule_set(path@, config@.directories);
    proof {
        assert(dir_applicable(pruned@.directories[0], path@));
        let j = choose|j: int|
            0 <= j < config@.directories.len() && #[trigger] config@.directories[j]
                == pruned@.directories[0];
        assert(some_applicable(path@, config@));
    }
    let listing = tree_listing(path, entries, config);
    let batch = crate::walker::generate_diff(path, &listing, &config.directories);
    let mut descend: Vec<bool> = Vec::new();
    let mut i: usize = 0;
    while i < entries.len()
        invariant
            0 <= i <= entries@.len(),
            lv == spec_listing(path@, entries@, config@.skips),
            rules == candidate_rule_set(path@, config@.directories),
            pathseq_view(batch.add@) == diff_adds(path@, lv, lv, rules),
            pathseq_view(batch.remove@) == diff_removes(path@, lv, lv, rules),
            some_applicable(path@, config@),
            descend@.len() == i,
            forall|j: int| 0 <= j < i ==> #[trigger] descend@[j] == (child_enterable(
                path@,
                entries@[j],
                config@,
            ) && !child_satisfied(path@, entries@, entries@[j], config@)),
        decreases entries@.len() - i,
    {
        let c = &entries[i];
        let cpath = path.join(&c.name);
        let ghost cnode = entries@[i as int];
        proof {
            assert(cpath@ == path@.push(cnode.name@));
        }
        let enter = c.is_dir && !crate::walker::path_in_skips(&cpath, &config.skips);
        let satisfied = (c.excluded && !contains_path(&batch.remove, &cpath)) || contains_path(
            &batch.add,
            &cpath,
        );
        proof {
            assert(enter == child_enterable(path@, cnode, config@));
            assert(satisfied == ((cnode.excluded && !diff_removes(path@, lv, lv, rules).contains(
                path@.push(cnode.name@),
            )) || diff_adds(path@, lv, lv, rules).contains(path@.push(cnode.name@))));
            assert((enter && !satisfied) == (child_enterable(path@, cnode, config@)
                && !child_satisfied(path@, entries@, cnode, config@)));
        }
        descend.push(enter && !satisfied);
        i = i + 1;
    }
    (batch, descend, pruned)
}

/// Settledness of the first `n` children follows from that of the first
/// `k`, for `n <= k`.
proof fn lemma_settled_children_prefix(
    path: Seq<Seq<char>>,
    cs: Seq<FsNode>,
    k: int,
    n: int,
    cfg: WalkConfigView,
)
    requires
        0 <= n <= k <= cs.len(),
        settled_children(path, cs, k, cfg),
    ensures
        settled_children(path, cs, n, cfg),
    decreases k - n,
{
    if n < k {
        lemma_settled_children_prefix(path, cs, k - 1, n, cfg);
    }
}

} // verus!
