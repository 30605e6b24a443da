//! The diff function: from one directory's observed children and the
//! applicable rules to the exclusion actions for that directory.

use vstd::prelude::*;

use crate::config::names_contain;
use crate::config::dirs_view;
use crate::config::Directory;
use crate::config::DirectoryView;
use crate::config::Rule;
use crate::config::RuleView;
use crate::config::WalkConfig;
use crate::path::is_prefix_of;
use crate::path::AbsPath;
use crate::tmutil::pathseq_view;
use crate::tmutil::ExclusionActionBatch;

verus! {

/// The view of a shallow listing: each immediate child's name with its
/// current excluded state.
pub open spec fn listing_view(s: Seq<(String, bool)>) -> Seq<(Seq<char>, bool)> {
    s.map_values(|e: (String, bool)| (e.0@, e.1))
}

/// Whether the listing holds a child of the given name.
pub open spec fn listing_has_name(listing: Seq<(Seq<char>, bool)>, name: Seq<char>) -> bool {
    exists|i: int| 0 <= i < listing.len() && #[trigger] listing[i].0 == name
}

/// Whether a rule asks to exclude the child `name` of a directory whose
/// children are `listing`: the name is among the rule's `excludes`, and the
/// rule is unconditional or one of its `if_exists` names is present.
pub open spec fn rule_applies(
    r: RuleView,
    name: Seq<char>,
    listing: Seq<(Seq<char>, bool)>,
) -> bool {
    r.excludes.contains(name) && (r.if_exists.len() == 0 || exists|i: int|
        0 <= i < r.if_exists.len() && listing_has_name(listing, #[trigger] r.if_exists[i]))
}

/// Whether a directory entry contributes its rules at `cwd`: its path is an
/// ancestor or a descendant of `cwd`.
pub open spec fn dir_applicable(d: DirectoryView, cwd: Seq<Seq<char>>) -> bool {
    is_prefix_of(d.path, cwd) || is_prefix_of(cwd, d.path)
}

/// The set of rules applicable at `cwd`: the union of the rules of every
/// applicable directory entry. Order and multiplicity of the entries do not
/// matter.
pub open spec fn candidate_rule_set(cwd: Seq<Seq<char>>, dirs: Seq<DirectoryView>) -> Set<
    RuleView,
> {
    Set::new(
        |r: RuleView|
            exists|i: int|
                0 <= i < dirs.len() && dir_applicable(#[trigger] dirs[i], cwd) && dirs[i].rules.contains(
                    r,
                ),
    )
}

/// Whether the child `name` ought to be excluded: some applicable rule asks
/// for it.
pub open spec fn should_exclude(
    name: Seq<char>,
    listing: Seq<(Seq<char>, bool)>,
    rules: Set<RuleView>,
) -> bool {
    exists|r: RuleView| rules.contains(r) && #[trigger] rule_applies(r, name, listing)
}

/// The paths the diff schedules for exclusion, in listing order: children
/// that ought to be excluded but are not.
pub open spec fn diff_adds(
    cwd: Seq<Seq<char>>,
    listing: Seq<(Seq<char>, bool)>,
    entries: Seq<(Seq<char>, bool)>,
    rules: Set<RuleView>,
) -> Seq<Seq<Seq<char>>>
    decreases entries.len(),
{
    if entries.len() == 0 {
        Seq::empty()
    } else {
        let pre = diff_adds(cwd, listing, entries.drop_last(), rules);
        let e = entries.last();
        if should_exclude(e.0, listing, rules) && !e.1 {
            pre.push(cwd.push(e.0))
        } else {
            pre
        }
    }
}

/// The paths the diff schedules for re-inclusion, in listing order: children
/// that are excluded but ought not to be.
pub open spec fn diff_removes(
    cwd: Seq<Seq<char>>,
    listing: Seq<(Seq<char>, bool)>,
    entries: Seq<(Seq<char>, bool)>,
    rules: Set<RuleView>,
) -> Seq<Seq<Seq<char>>>
    decreases entries.len(),
{
    if entries.len() == 0 {
        Seq::empty()
    } else {
        let pre = diff_removes(cwd, listing, entries.drop_last(), rules);
        let e = entries.last();
        if !should_exclude(e.0, listing, rules) && e.1 {
            pre.push(cwd.push(e.0))
        } else {
            pre
        }
    }
}

/// Whether the listing holds a child named `name`.
pub fn listing_contains_name(listing: &Vec<(String, bool)>, name: &String) -> (r: bool)
    ensures
        r == listing_has_name(listing_view(listing@), name@),
{
    let ghost lv = listing_view(listing@);
    let mut i: usize = 0;
    while i < listing.len()
        invariant
            0 <= i <= listing@.len(),
            lv == listing_view(listing@),
            lv.len() == listing@.len(),
            forall|j: int| 0 <= j < i ==> #[trigger] lv[j].0 != name@,
        decreases listing@.len() - i,
    {
        proof {
            assert(lv[i as int].0 == listing@[i as int].0@);
        }
        if listing[i].0 == *name {
            return true;
        }
        i = i + 1;
    }
    false
}

/// Whether `rule` asks to exclude the child `name` given the listing.
pub fn rule_applies_exec(rule: &Rule, name: &String, listing: &Vec<(String, bool)>) -> (r: bool)
    ensures
        r == rule_applies(rule@, name@, listing_view(listing@)),
{
    if !names_contain(&rule.excludes, name) {
        return false;
    }
    if rule.if_exists.len() == 0 {
        return true;
    }
    let ghost ie = rule@.if_exists;
    let mut i: usize = 0;
    while i < rule.if_exists.len()
        invariant
            0 <= i <= ie.len(),
            ie == rule@.if_exists,
            ie.len() == rule.if_exists@.len(),
            rule@.excludes.contains(name@),
            forall|j: int| 0 <= j < i ==> !listing_has_name(
                listing_view(listing@),
                #[trigger] ie[j],
            ),
        decreases ie.len() - i,
    {
        proof {
            assert(ie[i as int] == rule.if_exists@[i as int]@);
        }
        if listing_contains_name(listing, &rule.if_exists[i]) {
            return true;
        }
        i = i + 1;
    }
    false
}

/// Whether some rule applicable at `cwd` asks to exclude the child `name`.
pub fn should_exclude_exec(
    name: &String,
    listing: &Vec<(String, bool)>,
    cwd: &AbsPath,
    directories: &Vec<Directory>,
) -> (r: bool)
    ensures
        r == should_exclude(
            name@,
            listing_view(listing@),
            candidate_rule_set(cwd@, dirs_view(directories@)),
        ),
{
    let ghost dirs = dirs_view(directories@);
    let ghost rules = candidate_rule_set(cwd@, dirs);
    let mut i: usize = 0;
    while i < directories.len()
        invariant
            0 <= i <= directories@.len(),
            dirs == dirs_view(directories@),
            rules == candidate_rule_set(cwd@, dirs),
            dirs.len() == directories@.len(),
            forall|di: int, ri: int|
                0 <= di < i && 0 <= ri < dirs[di].rules.len() && dir_applicable(
                    #[trigger] dirs[di],
                    cwd@,
                ) ==> !rule_applies(#[trigger] dirs[di].rules[ri], name@, listing_view(listing@)),
        decreases directories@.len() - i,
    {
        proof {
            assert(dirs[i as int] == directories@[i as int]@);
        }
        let d = &directories[i];
        if d.path.starts_with(cwd) || cwd.starts_with(&d.path) {
            let mut j: usize = 0;
            while j < d.rules.len()
                invariant
                    0 <= j <= d.rules@.len(),
                    i < directories@.len(),
                    d == &directories[i as int],
                    dirs == dirs_view(directories@),
                    dirs.len() == directories@.len(),
                    dirs[i as int] == directories@[i as int]@,
                    dirs[i as int].rules.len() == d.rules@.len(),
                    dir_applicable(dirs[i as int], cwd@),
                    rules == candidate_rule_set(cwd@, dirs),
                    forall|ri: int| 0 <= ri < j ==> !rule_applies(
                        #[trigger] dirs[i as int].rules[ri],
                        name@,
                        listing_view(listing@),
                    ),
                decreases d.rules@.len() - j,
            {
                proof {
                    assert(dirs[i as int].rules[j as int] == d.rules@[j as int]@);
                }
                if rule_applies_exec(&d.rules[j], name, listing) {
                    proof {
                        let rv = dirs[i as int].rules[j as int];
                        assert(dirs[i as int].rules.contains(rv));
                        assert(dir_applicable(dirs[i as int], cwd@));
                        assert(0 <= i < dirs.len() && dir_applicable(dirs[i as int], cwd@)
                            && dirs[i as int].rules.contains(rv));
                        assert(rules.contains(rv));
                        assert(rule_applies(rv, name@, listing_view(listing@)));
                    }
                    return true;
                }
                j = j + 1;
            }
        }
        i = i + 1;
    }
    proof {
        if should_exclude(name@, listing_view(listing@), rules) {
            let rv = choose|rv: RuleView|
                rules.contains(rv) && #[trigger] rule_applies(
                    rv,
                    name@,
                    listing_view(listing@),
                );
            let di = choose|di: int|
                0 <= di < dirs.len() && dir_applicable(#[trigger] dirs[di], cwd@)
                    && dirs[di].rules.contains(rv);
            let ri = choose|ri: int|
                0 <= ri < dirs[di].rules.len() && #[trigger] dirs[di].rules[ri] == rv;
            assert(!rule_applies(dirs[di].rules[ri], name@, listing_view(listing@)));
        }
    }
    false
}

/// Computes the exclusion actions for one directory: for each child, compare
/// the state the rules ask for with the observed state and emit an addition
/// or a removal on mismatch, in listing order.
pub fn generate_diff(
    cwd: &AbsPath,
    shallow_list: &Vec<(String, bool)>,
    directories: &Vec<Directory>,
) -> (r: ExclusionActionBatch)
    ensures
        pathseq_view(r.add@) == diff_adds(
            cwd@,
            listing_view(shallow_list@),
            listing_view(shallow_list@),
            candidate_rule_set(cwd@, dirs_view(directories@)),
        ),
        pathseq_view(r.remove@) == diff_removes(
            cwd@,
            listing_view(shallow_list@),
            listing_view(shallow_list@),
            candidate_rule_set(cwd@, dirs_view(directories@)),
        ),
{
    let ghost lv = listing_view(shallow_list@);
    let ghost rules = candidate_rule_set(cwd@, dirs_view(directories@));
    let mut r = ExclusionActionBatch::new();
    let mut i: usize = 0;
    proof {
        assert(lv.take(0) =~= Seq::<(Seq<char>, bool)>::empty());
        assert(pathseq_view(r.add@) =~= Seq::<Seq<Seq<char>>>::empty());
        assert(pathseq_view(r.remove@) =~= Seq::<Seq<Seq<char>>>::empty());
    }
    while i < shallow_list.len()
        invariant
            0 <= i <= shallow_list@.len(),
            lv == listing_view(shallow_list@),
            lv.len() == shallow_list@.len(),
            rules == candidate_rule_set(cwd@, dirs_view(directories@)),
            pathseq_view(r.add@) == diff_adds(cwd@, lv, lv.take(i as int), rules),
            pathseq_view(r.remove@) == diff_removes(cwd@, lv, lv.take(i as int), rules),
        decreases shallow_list@.len() - i,
    {
        proof {
            assert(lv[i as int] == (shallow_list@[i as int].0@, shallow_list@[i as int].1));
            assert(lv.take(i + 1).drop_last() =~= lv.take(i as int));
            assert(lv.take(i + 1).last() == lv[i as int]);
        }
        let name = &shallow_list[i].0;
        let excluded = shallow_list[i].1;
        let expected = should_exclude_exec(name, shallow_list, cwd, directories);
        if expected && !excluded {
            let ghost pre_add = r.add@;
            r.push(crate::tmutil::ExclusionAction::Add(cwd.join(name)));
            proof {
                assert(pathseq_view(r.add@) =~= pathseq_view(pre_add).push(cwd@.push(name@)));
            }
        } else if !expected && excluded {
            let ghost pre_rm = r.remove@;
            r.push(crate::tmutil::ExclusionAction::Remove(cwd.join(name)));
            proof {
                assert(pathseq_view(r.remove@) =~= pathseq_view(pre_rm).push(cwd@.push(name@)));
            }
        }
        i = i + 1;
    }
    proof {
        assert(lv.take(lv.len() as int) =~= lv);
    }
    r
}

/// Whether no scan work can ever be needed at `root` under this
/// configuration: it lies beneath a skip, or no configured directory is an
/// ancestor or descendant of it.
pub open spec fn no_work_needed(root: Seq<Seq<char>>, cfg: crate::config::WalkConfigView) -> bool {
    (exists|s: Seq<Seq<char>>| cfg.skips.contains(s) && #[trigger] is_prefix_of(s, root)) || (
    forall|i: int| 0 <= i < cfg.directories.len() ==> !dir_applicable(
        #[trigger] cfg.directories[i],
        root,
    ))
}

/// Every entry of the skip cache is a path that needs no work under the
/// given configuration.
pub open spec fn skip_cache_ok(
    contents: Set<Seq<Seq<char>>>,
    cfg: crate::config::WalkConfigView,
) -> bool {
    forall|p: Seq<Seq<char>>| #[trigger] contents.contains(p) ==> no_work_needed(p, cfg)
}

/// Whether `root` lies beneath one of the skips.
fn under_some_skip(root: &AbsPath, skips: &Vec<AbsPath>) -> (r: bool)
    ensures
        r == exists|s: Seq<Seq<char>>|
            crate::config::skips_view(skips@).contains(s) && #[trigger] is_prefix_of(s, root@),
{
    let ghost sv = crate::config::skips_view(skips@);
    let mut i: usize = 0;
    while i < skips.len()
        invariant
            0 <= i <= skips@.len(),
            sv == crate::config::skips_view(skips@),
            forall|j: int| 0 <= j < i ==> !is_prefix_of(#[trigger] skips@[j]@, root@),
        decreases skips@.len() - i,
    {
        if root.starts_with(&skips[i]) {
            proof {
                crate::config::lemma_skips_view_contains(skips@, skips@[i as int]@);
                assert(sv.contains(skips@[i as int]@));
            }
            return true;
        }
        i = i + 1;
    }
    proof {
        if exists|s: Seq<Seq<char>>| sv.contains(s) && #[trigger] is_prefix_of(s, root@) {
            let s = choose|s: Seq<Seq<char>>| sv.contains(s) && #[trigger] is_prefix_of(s, root@);
            crate::config::lemma_skips_view_contains(skips@, s);
            let j = choose|j: int| #![trigger skips@[j]] 0 <= j < skips@.len() && skips@[j]@ == s;
        }
    }
    false
}

/// Whether some configured directory applies at `root`.
pub(crate) fn some_dir_applicable(root: &AbsPath, directories: &Vec<Directory>) -> (r: bool)
    ensures
        r == exists|i: int|
            0 <= i < dirs_view(directories@).len() && dir_applicable(
                #[trigger] dirs_view(directories@)[i],
                root@,
            ),
{
    let ghost dirs = dirs_view(directories@);
    let mut i: usize = 0;
    while i < directories.len()
        invariant
            0 <= i <= directories@.len(),
            dirs == dirs_view(directories@),
            dirs.len() == directories@.len(),
            forall|j: int| 0 <= j < i ==> !dir_applicable(#[trigger] dirs[j], root@),
        decreases directories@.len() - i,
    {
        proof {
            assert(dirs[i as int] == directories@[i as int]@);
        }
        if directories[i].path.starts_with(root) || root.starts_with(&directories[i].path) {
            return true;
        }
        i = i + 1;
    }
    false
}

/// Decides whether a watcher-driven rescan of `root` should read the
/// directory at all: consults the skip cache, the skips, the configured
/// directories and finally the excluded state of the ancestors.
///
/// A cached path, a skipped path and a path no directory applies to are
/// turned away, the latter two entering the cache; a path with an excluded
/// ancestor is turned away without being cached, since ancestor state may
/// change. A `true` answer means real work may be needed; a `false` answer
/// may also reflect the ancestors' current state on disk.
pub fn walk_non_recursive_precheck(
    root: &AbsPath,
    config: &WalkConfig,
    cache: &mut crate::skip_cache::SkipCache,
) -> (r: bool)
    requires
        skip_cache_ok(crate::skip_cache::skip_cache_contents(old(cache)), config@),
    ensures
        skip_cache_ok(crate::skip_cache::skip_cache_contents(final(cache)), config@),
        forall|p: Seq<Seq<char>>|
            crate::skip_cache::skip_cache_contents(final(cache)).contains(p)
                ==> crate::skip_cache::skip_cache_contents(old(cache)).contains(p) || p == root@,
        r ==> !no_work_needed(root@, config@),
        no_work_needed(root@, config@) ==> !r,
{
    if cache.contains(root) {
        return false;
    }
    let ghost pre = crate::skip_cache::skip_cache_contents(cache);
    if under_some_skip(root, &config.skips) {
        proof {
            assert(no_work_needed(root@, config@));
        }
        cache.insert(root.clone());
        proof {
            assert forall|p: Seq<Seq<char>>|
                #[trigger] crate::skip_cache::skip_cache_contents(cache).contains(p) implies
                no_work_needed(p, config@) by {
                if pre.contains(p) {
                } else {
                    assert(p == root@);
                }
            }
        }
        return false;
    }
    if !some_dir_applicable(root, &config.directories) {
        proof {
            assert(no_work_needed(root@, config@));
        }
        cache.insert(root.clone());
        proof {
            assert forall|p: Seq<Seq<char>>|
                #[trigger] crate::skip_cache::skip_cache_contents(cache).contains(p) implies
                no_work_needed(p, config@) by {
                if pre.contains(p) {
                } else {
                    assert(p == root@);
                }
            }
        }
        return false;
    }
    if any_ancestor_excluded(root) {
        // An excluded ancestor already covers this directory; its state may
        // change, so nothing is cached.
        return false;
    }
    proof {
        let dirs = dirs_view(config.directories@);
        assert(!(exists|s: Seq<Seq<char>>|
            config@.skips.contains(s) && #[trigger] is_prefix_of(s, root@)));
        let i = choose|i: int|
            0 <= i < dirs.len() && dir_applicable(#[trigger] dirs[i], root@);
        assert(config@.directories[i] == dirs[i]);
        assert(dir_applicable(config@.directories[i], root@));
        assert(!(forall|k: int| 0 <= k < config@.directories.len() ==> !dir_applicable(
            #[trigger] config@.directories[k],
            root@,
        )));
        assert(!no_work_needed(root@, config@));
    }
    true
}

/// Whether the path or one of its ancestors currently carries the
/// backup-exclusion attribute. The answer follows the filesystem's state;
/// an unreadable ancestor counts as not excluded.
fn any_ancestor_excluded(root: &AbsPath) -> (r: bool) {
    let mut depth = root.depth();
    loop
        invariant
            depth <= root@.len(),
        decreases depth,
    {
        let ancestor = prefix_of_path(root, depth);
        match crate::tmutil::is_excluded(&ancestor) {
            Ok(true) => {
                return true;
            },
            _ => {},
        }
        if depth == 0 {
            break;
        }
        depth = depth - 1;
    }
    false
}

/// The ancestor of `p` that keeps its first `depth` components.
fn prefix_of_path(p: &AbsPath, depth: usize) -> (r: AbsPath)
    requires
        depth <= p@.len(),
    ensures
        r@ == p@.take(depth as int),
{
    let mut segs: Vec<String> = Vec::new();
    let mut i: usize = 0;
    while i < depth
        invariant
            0 <= i <= depth,
            depth <= p@.len(),
            segs@.len() == i,
            forall|j: int| 0 <= j < i ==> segs@[j]@ == p@[j],
        decreases depth - i,
    {
        segs.push(p.seg(i).clone());
        i = i + 1;
    }
    let r = AbsPath::from_segs(segs);
    proof {
        assert(r@ =~= p@.take(depth as int));
    }
    r
}

/// The observed entries are a subsequence of the directory's children: each
/// is picked from `names` at a strictly increasing position — order and
/// multiplicity preserved — and none lies beneath a skip. Entries may only
/// be missing (a skipped child, or one whose state could not be read),
/// never invented, duplicated or reordered.
pub open spec fn observed_listing_ok(
    listing: Seq<(Seq<char>, bool)>,
    root: Seq<Seq<char>>,
    names: Seq<Seq<char>>,
    skips: Set<Seq<Seq<char>>>,
) -> bool {
    exists|picks: Seq<int>| #[trigger] picks_observe(picks, listing, root, names, skips)
}

/// Whether `picks` witnesses the listing as such a subsequence.
pub open spec fn picks_observe(
    picks: Seq<int>,
    listing: Seq<(Seq<char>, bool)>,
    root: Seq<Seq<char>>,
    names: Seq<Seq<char>>,
    skips: Set<Seq<Seq<char>>>,
) -> bool {
    &&& picks.len() == listing.len()
    &&& (forall|k: int|
        #![trigger picks[k]]
        0 <= k < picks.len() ==> 0 <= picks[k] < names.len() && listing[k].0 == names[picks[k]]
            && !skips.contains(root.push(listing[k].0)))
    &&& (forall|k: int| #![trigger picks[k]] 0 <= k < picks.len() - 1 ==> picks[k] < picks[k + 1])
}

/// Reads each named child's excluded state and builds the shallow listing
/// for the diff, leaving out children beneath a skip and children whose
/// state cannot be read.
fn build_shallow_list(root: &AbsPath, names: &Vec<String>, config: &WalkConfig) -> (r: Vec<
    (String, bool),
>)
    ensures
        observed_listing_ok(
            listing_view(r@),
            root@,
            crate::config::names_view(names@),
            config@.skips,
        ),
{
    let ghost nv = crate::config::names_view(names@);
    let mut out: Vec<(String, bool)> = Vec::new();
    let ghost mut picks: Seq<int> = Seq::empty();
    proof {
        assert(listing_view(out@).len() == 0);
        assert(picks_observe(picks, listing_view(out@), root@, nv, config@.skips));
    }
    let mut i: usize = 0;
    while i < names.len()
        invariant
            0 <= i <= names@.len(),
            nv == crate::config::names_view(names@),
            nv.len() == names@.len(),
            picks_observe(picks, listing_view(out@), root@, nv, config@.skips),
            forall|k: int| #![trigger picks[k]] 0 <= k < picks.len() ==> picks[k] < i,
        decreases names@.len() - i,
    {
        let child = root.join(&names[i]);
        if !path_in_skips(&child, &config.skips) {
            match crate::tmutil::is_excluded(&child) {
                Ok(excluded) => {
                    let ghost old_lv = listing_view(out@);
                    let ghost old_picks = picks;
                    out.push((names[i].clone(), excluded));
                    proof {
                        picks = picks.push(i as int);
                        let lv = listing_view(out@);
                        assert(lv =~= old_lv.push((names@[i as int]@, excluded)));
                        assert(nv[i as int] == names@[i as int]@);
                        assert(child@ == root@.push(names@[i as int]@));
                        assert forall|k: int|
                            #![trigger picks[k]]
                            0 <= k < picks.len() implies 0 <= picks[k] < nv.len() && lv[k].0
                            == nv[picks[k]] && !config@.skips.contains(root@.push(lv[k].0))
                            && picks[k] < i + 1 by {
                            if k < picks.len() - 1 {
                                assert(picks[k] == old_picks[k]);
                                assert(lv[k] == old_lv[k]);
                            } else {
                                assert(picks[k] == i as int);
                                assert(lv[k].0 == names@[i as int]@);
                            }
                        }
                        assert forall|k: int|
                            #![trigger picks[k]]
                            0 <= k < picks.len() - 1 implies picks[k] < picks[k + 1] by {
                            if k < picks.len() - 2 {
                                assert(picks[k] == old_picks[k] && picks[k + 1] == old_picks[k
                                    + 1]);
                            } else {
                                assert(picks[k] == old_picks[k]);
                                assert(picks[k + 1] == i as int);
                            }
                        }
                        assert(picks_observe(picks, lv, root@, nv, config@.skips));
                    }
                },
                Err(_) => {
                    // An unreadable child is treated as unobservable.
                },
            }
        }
        i = i + 1;
    }
    proof {
        assert(picks_observe(picks, listing_view(out@), root@, nv, config@.skips));
        assert(observed_listing_ok(listing_view(out@), root@, nv, config@.skips));
    }
    out
}

/// Whether the exact path is among the skips.
pub(crate) fn path_in_skips(p: &AbsPath, skips: &Vec<AbsPath>) -> (r: bool)
    ensures
        r == crate::config::skips_view(skips@).contains(p@),
{
    let ghost sv = crate::config::skips_view(skips@);
    let mut i: usize = 0;
    while i < skips.len()
        invariant
            0 <= i <= skips@.len(),
            sv == crate::config::skips_view(skips@),
            forall|j: int| 0 <= j < i ==> #[trigger] skips@[j]@ != p@,
        decreases skips@.len() - i,
    {
        if skips[i] == *p {
            proof {
                crate::config::lemma_skips_view_contains(skips@, p@);
                assert(sv.contains(p@));
            }
            return true;
        }
        i = i + 1;
    }
    proof {
        if sv.contains(p@) {
            crate::config::lemma_skips_view_contains(skips@, p@);
            let j = choose|j: int| #![trigger skips@[j]] 0 <= j < skips@.len() && skips@[j]@ == p@;
        }
    }
    false
}

/// The single-directory rescan behind the watcher: from the immediate child
/// names of `root`, read each child's excluded state and diff the directory
/// against the applicable rules. The result is the diff of the listing that
/// could actually be observed: children beneath a skip and children whose
/// state cannot be read contribute nothing.
pub fn walk_non_recursive_scan(
    root: &AbsPath,
    names: &Vec<String>,
    config: &WalkConfig,
) -> (r: ExclusionActionBatch)
    ensures
        exists|listing: Seq<(Seq<char>, bool)>|
            {
                &&& #[trigger] observed_listing_ok(
                    listing,
                    root@,
                    crate::config::names_view(names@),
                    config@.skips,
                )
                &&& pathseq_view(r.add@) == diff_adds(
                    root@,
                    listing,
                    listing,
                    candidate_rule_set(root@, config@.directories),
                )
                &&& pathseq_view(r.remove@) == diff_removes(
                    root@,
                    listing,
                    listing,
                    candidate_rule_set(root@, config@.directories),
                )
            },
{
    let shallow = build_shallow_list(root, names, config);
    let r = generate_diff(root, &shallow, &config.directories);
    proof {
        let listing = listing_view(shallow@);
        assert({
            &&& observed_listing_ok(
                listing,
                root@,
                crate::config::names_view(names@),
                config@.skips,
            )
            &&& pathseq_view(r.add@) == diff_adds(
                root@,
                listing,
                listing,
                candidate_rule_set(root@, config@.directories),
            )
            &&& pathseq_view(r.remove@) == diff_removes(
                root@,
                listing,
                listing,
                candidate_rule_set(root@, config@.directories),
            )
        });
    }
    r
}

/// The diff at one directory is idempotent: after its actions are applied to
/// the listing — each child's excluded state becomes exactly what the rules
/// ask — diffing the resulting listing yields no action.
pub proof fn lemma_diff_idempotent(
    cwd: Seq<Seq<char>>,
    listing: Seq<(Seq<char>, bool)>,
    rules: Set<RuleView>,
)
    ensures
        ({
            let applied = listing.map_values(
                |e: (Seq<char>, bool)| (e.0, should_exclude(e.0, listing, rules)),
            );
            diff_adds(cwd, applied, applied, rules).len() == 0 && diff_removes(
                cwd,
                applied,
                applied,
                rules,
            ).len() == 0
        }),
{
    let applied = listing.map_values(
        |e: (Seq<char>, bool)| (e.0, should_exclude(e.0, listing, rules)),
    );
    assert(applied.len() == listing.len());
    assert forall|i: int| 0 <= i < listing.len() implies #[trigger] applied[i].0
        == listing[i].0 by {
        assert(applied[i] == (listing[i].0, should_exclude(listing[i].0, listing, rules)));
    }
    lemma_same_names(listing, applied);
    assert forall|r: RuleView, n: Seq<char>|
        #[trigger] rule_applies(r, n, applied) == rule_applies(r, n, listing) by {
        if rule_applies(r, n, applied) {
            if r.if_exists.len() > 0 {
                let i = choose|i: int|
                    0 <= i < r.if_exists.len() && listing_has_name(
                        applied,
                        #[trigger] r.if_exists[i],
                    );
                assert(listing_has_name(listing, r.if_exists[i]));
            }
        }
        if rule_applies(r, n, listing) {
            if r.if_exists.len() > 0 {
                let i = choose|i: int|
                    0 <= i < r.if_exists.len() && listing_has_name(
                        listing,
                        #[trigger] r.if_exists[i],
                    );
                assert(listing_has_name(applied, r.if_exists[i]));
            }
        }
    }
    assert forall|n: Seq<char>|
        #[trigger] should_exclude(n, applied, rules) == should_exclude(n, listing, rules) by {
        if should_exclude(n, applied, rules) {
            let r = choose|r: RuleView|
                rules.contains(r) && #[trigger] rule_applies(r, n, applied);
            assert(rule_applies(r, n, listing));
        }
        if should_exclude(n, listing, rules) {
            let r = choose|r: RuleView|
                rules.contains(r) && #[trigger] rule_applies(r, n, listing);
            assert(rule_applies(r, n, applied));
        }
    }
    assert forall|i: int| 0 <= i < applied.len() implies #[trigger] applied[i].1
        == should_exclude(applied[i].0, listing, rules) by {
        assert(applied[i] == (listing[i].0, should_exclude(listing[i].0, listing, rules)));
    }
    lemma_diff_settled(cwd, applied, applied, listing, rules);
}

/// Helper: two listings with pointwise equal names agree on name membership.
proof fn lemma_same_names(a: Seq<(Seq<char>, bool)>, b: Seq<(Seq<char>, bool)>)
    requires
        a.len() == b.len(),
        forall|i: int| 0 <= i < a.len() ==> a[i].0 == b[i].0,
    ensures
        forall|n: Seq<char>| listing_has_name(a, n) == listing_has_name(b, n),
{
    assert forall|n: Seq<char>| listing_has_name(a, n) == listing_has_name(b, n) by {
        if listing_has_name(a, n) {
            let i = choose|i: int| 0 <= i < a.len() && #[trigger] a[i].0 == n;
            assert(b[i].0 == n);
        }
        if listing_has_name(b, n) {
            let i = choose|i: int| 0 <= i < b.len() && #[trigger] b[i].0 == n;
            assert(a[i].0 == n);
        }
    }
}

/// Helper: when every entry's excluded state already equals what the rules
/// ask for, the diff over those entries is empty.
proof fn lemma_diff_settled(
    cwd: Seq<Seq<char>>,
    full: Seq<(Seq<char>, bool)>,
    entries: Seq<(Seq<char>, bool)>,
    reference: Seq<(Seq<char>, bool)>,
    rules: Set<RuleView>,
)
    requires
        forall|i: int| 0 <= i < entries.len() ==> #[trigger] entries[i].1 == should_exclude(
            entries[i].0,
            reference,
            rules,
        ),
        forall|n: Seq<char>|
            #[trigger] should_exclude(n, full, rules) == should_exclude(n, reference, rules),
    ensures
        diff_adds(cwd, full, entries, rules).len() == 0,
        diff_removes(cwd, full, entries, rules).len() == 0,
    decreases entries.len(),
{
    if entries.len() > 0 {
        lemma_diff_settled(cwd, full, entries.drop_last(), reference, rules);
        let e = entries.last();
        assert(e == entries[entries.len() - 1]);
        assert(e.1 == should_exclude(e.0, reference, rules));
    }
}

/// The diff depends only on the set of applicable rules: directory lists
/// that yield the same applicable rule set at `cwd` yield the same actions,
/// whatever their order or multiplicity.
pub proof fn lemma_diff_rule_set_only(
    cwd: Seq<Seq<char>>,
    listing: Seq<(Seq<char>, bool)>,
    dirs_a: Seq<DirectoryView>,
    dirs_b: Seq<DirectoryView>,
)
    requires
        candidate_rule_set(cwd, dirs_a) == candidate_rule_set(cwd, dirs_b),
    ensures
        diff_adds(cwd, listing, listing, candidate_rule_set(cwd, dirs_a)) == diff_adds(
            cwd,
            listing,
            listing,
            candidate_rule_set(cwd, dirs_b),
        ),
        diff_removes(cwd, listing, listing, candidate_rule_set(cwd, dirs_a)) == diff_removes(
            cwd,
            listing,
            listing,
            candidate_rule_set(cwd, dirs_b),
        ),
{
}

} // verus!
