//! Reacting to a single filesystem event: from the path that appeared or
//! vanished, the rules of the deepest directory it falls under decide which
//! exclusions to add or undo.

use vstd::prelude::*;

use crate::config::dirs_view;
use crate::config::names_contain;
use crate::config::names_view;
use crate::config::Directory;
use crate::config::DirectoryView;
use crate::config::RuleView;
use crate::path::is_prefix_of;
use crate::path::AbsPath;
use crate::tmutil::pathseq_view;
use crate::tmutil::ExclusionAction;

verus! {

/// The kinds of filesystem event the watcher reacts to.
pub enum FsEventKind {
    /// Something was created at the path.
    Create,
    /// Something was removed at the path.
    Remove,
    /// Something else happened; nothing is done.
    Other,
}

/// Whether the directory entry contains `path`.
pub open spec fn dir_contains(d: DirectoryView, path: Seq<Seq<char>>) -> bool {
    is_prefix_of(d.path, path)
}

/// Whether the rule mentions the name on either side: as a candidate for
/// exclusion or as an indicator.
pub open spec fn rule_mentions(r: RuleView, name: Seq<char>) -> bool {
    r.excludes.contains(name) || r.if_exists.contains(name)
}

/// The deepest directory entry containing `path`; among equally deep ones,
/// the last.
fn deepest_containing_index(directories: &Vec<Directory>, path: &AbsPath) -> (r: Option<usize>)
    ensures
        ({
            let dirs = dirs_view(directories@);
            match r {
                None => forall|j: int| 0 <= j < dirs.len() ==> !dir_contains(
                    #[trigger] dirs[j],
                    path@,
                ),
                Some(i) => 0 <= i < dirs.len() && dir_contains(dirs[i as int], path@) && forall|
                    j: int,
                |
                    0 <= j < dirs.len() && dir_contains(#[trigger] dirs[j], path@) ==> (
                    dirs[j].path.len() < dirs[i as int].path.len() || (dirs[j].path.len()
                        == dirs[i as int].path.len() && j <= i)),
            }
        }),
{
    let ghost dirs = dirs_view(directories@);
    let mut best: Option<usize> = None;
    let mut i: usize = 0;
    while i < directories.len()
        invariant
            0 <= i <= directories@.len(),
            dirs == dirs_view(directories@),
            dirs.len() == directories@.len(),
            match best {
                None => forall|j: int| 0 <= j < i ==> !dir_contains(#[trigger] dirs[j], path@),
                Some(b) => 0 <= b < i && dir_contains(dirs[b as int], path@) && forall|j: int|
                    0 <= j < i && dir_contains(#[trigger] dirs[j], path@) ==> (dirs[j].path.len()
                        < dirs[b as int].path.len() || (dirs[j].path.len()
                        == dirs[b as int].path.len() && j <= b)),
            },
        decreases directories@.len() - i,
    {
        proof {
            assert(dirs[i as int] == directories@[i as int]@);
        }
        if path.starts_with(&directories[i].path) {
            let take = match best {
                None => true,
                Some(b) => directories[b].path.depth() <= directories[i].path.depth(),
            };
            if take {
                best = Some(i);
            }
        }
        i = i + 1;
    }
    best
}

/// The first rule of the list that mentions the name, and whether it does so
/// through its `excludes` side.
fn first_matching_rule<'a>(rules: &'a Vec<crate::config::Rule>, name: &String) -> (r: Option<
    (&'a crate::config::Rule, bool),
>)
    ensures
        ({
            let rv = crate::config::rules_view(rules@);
            match r {
                None => forall|j: int| 0 <= j < rv.len() ==> !rule_mentions(
                    #[trigger] rv[j],
                    name@,
                ),
                Some((rule, on_excludes)) => exists|j: int|
                    0 <= j < rv.len() && #[trigger] rv[j] == rule@ && rule_mentions(rv[j], name@)
                        && on_excludes == rv[j].excludes.contains(name@) && forall|k: int|
                        0 <= k < j ==> !rule_mentions(#[trigger] rv[k], name@),
            }
        }),
{
    let ghost rv = crate::config::rules_view(rules@);
    let mut j: usize = 0;
    while j < rules.len()
        invariant
            0 <= j <= rules@.len(),
            rv == crate::config::rules_view(rules@),
            rv.len() == rules@.len(),
            forall|k: int| 0 <= k < j ==> !rule_mentions(#[trigger] rv[k], name@),
        decreases rules@.len() - j,
    {
        proof {
            assert(rv[j as int] == rules@[j as int]@);
        }
        let on_excludes = names_contain(&rules[j].excludes, name);
        if on_excludes || names_contain(&rules[j].if_exists, name) {
            return Some((&rules[j], on_excludes));
        }
        j = j + 1;
    }
    None
}

/// The paths an action list touches.
pub open spec fn action_paths(s: Seq<ExclusionAction>) -> Seq<Seq<Seq<char>>> {
    s.map_values(
        |a: ExclusionAction|
            match a {
                ExclusionAction::Add(p) => p@,
                ExclusionAction::Remove(p) => p@,
            },
    )
}

/// The candidates of the rule that are present beside the appeared path:
/// each becomes an exclusion under the parent.
pub open spec fn present_excludes(
    excludes: Seq<Seq<char>>,
    parent: Seq<Seq<char>>,
    sib: Seq<Seq<char>>,
) -> Seq<Seq<Seq<char>>>
    decreases excludes.len(),
{
    if excludes.len() == 0 {
        Seq::empty()
    } else {
        let pre = present_excludes(excludes.drop_last(), parent, sib);
        if sib.contains(excludes.last()) {
            pre.push(parent.push(excludes.last()))
        } else {
            pre
        }
    }
}

/// The paths the selected rule asks to exclude when `path` appears beside
/// the names `sib`: the path itself when the rule names it as a candidate
/// and the rule is unconditional or at least one of its indicators is
/// present, or every present candidate when the rule names the path as an
/// indicator.
pub open spec fn appear_targets(
    rule: RuleView,
    path: Seq<Seq<char>>,
    sib: Seq<Seq<char>>,
) -> Seq<Seq<Seq<char>>> {
    if rule.excludes.contains(path.last()) {
        if rule.if_exists.len() == 0 || exists|q: int|
            0 <= q < rule.if_exists.len() && sib.contains(#[trigger] rule.if_exists[q]) {
            seq![path]
        } else {
            Seq::empty()
        }
    } else {
        present_excludes(rule.excludes, path.drop_last(), sib)
    }
}

/// What appearing at `path` yields from the selected directory's rules: the
/// first rule mentioning the path's name decides, and when none does,
/// nothing happens.
pub open spec fn appear_outcome(
    rules: Seq<RuleView>,
    path: Seq<Seq<char>>,
    sib: Seq<Seq<char>>,
    out: Seq<Seq<Seq<char>>>,
) -> bool {
    ||| ((forall|j: int| 0 <= j < rules.len() ==> !rule_mentions(#[trigger] rules[j], path.last()))
        && out.len() == 0)
    ||| (exists|j: int|
        0 <= j < rules.len() && rule_mentions(#[trigger] rules[j], path.last()) && (forall|k: int|
            0 <= k < j ==> !rule_mentions(#[trigger] rules[k], path.last())) && out
            == appear_targets(rules[j], path, sib))
}

/// What one appearance event yields, over the whole directory list: nothing
/// when no entry contains the path, else the outcome of the deepest
/// containing entry — among equally deep ones the last.
pub open spec fn appear_paths_ok(
    dirs: Seq<DirectoryView>,
    path: Seq<Seq<char>>,
    sib: Seq<Seq<char>>,
    out: Seq<Seq<Seq<char>>>,
) -> bool {
    ||| ((forall|j: int| 0 <= j < dirs.len() ==> !dir_contains(#[trigger] dirs[j], path)) && out.len()
        == 0)
    ||| (exists|i: int|
        {
            &&& 0 <= i < dirs.len() && dir_contains(#[trigger] dirs[i], path)
            &&& (forall|j: int|
                0 <= j < dirs.len() && dir_contains(#[trigger] dirs[j], path) ==> (
                dirs[j].path.len() < dirs[i].path.len() || (dirs[j].path.len()
                    == dirs[i].path.len() && j <= i)))
            &&& appear_outcome(dirs[i].rules, path, sib, out)
        })
}

/// The exclusions to add when `path` has just appeared, given the names now
/// present beside it. The deepest directory entry containing the path is
/// consulted — among equally deep entries the last — and within it the
/// first rule that mentions the path's name: a rule naming it among its
/// `excludes` excludes the path itself once the rule is unconditional or
/// at least one of its indicators is present; a rule naming it among its
/// `if_exists` excludes every sibling on the rule's `excludes` side that is
/// actually present.
pub fn action_when_appear(
    directories: &Vec<Directory>,
    path: &AbsPath,
    siblings: &Vec<String>,
) -> (r: Vec<ExclusionAction>)
    requires
        path@.len() > 0,
    ensures
        forall|k: int| 0 <= k < r@.len() ==> #[trigger] r@[k] is Add,
        appear_paths_ok(dirs_view(directories@), path@, names_view(siblings@), action_paths(r@)),
{
    let ghost dirs = dirs_view(directories@);
    let ghost sib = names_view(siblings@);
    let name_count = path.depth();
    let name = path.seg(name_count - 1).clone();
    proof {
        assert(name@ == path@.last());
    }
    let parent = path.parent();
    let mut out: Vec<ExclusionAction> = Vec::new();
    let found = deepest_containing_index(directories, path);
    let i = match found {
        None => {
            proof {
                assert(action_paths(out@) =~= Seq::<Seq<Seq<char>>>::empty());
            }
            return out;
        },
        Some(i) => i,
    };
    let ghost rv = crate::config::rules_view(directories@[i as int].rules@);
    proof {
        assert(dirs[i as int] == directories@[i as int]@);
        assert(dirs[i as int].rules == rv);
    }
    let matched = first_matching_rule(&directories[i].rules, &name);
    match matched {
        None => {
            proof {
                assert(action_paths(out@) =~= Seq::<Seq<Seq<char>>>::empty());
                assert(appear_outcome(rv, path@, sib, action_paths(out@)));
            }
            out
        },
        Some((rule, true)) => {
            // The appeared path itself is a candidate: exclude it when the
            // rule is unconditional or some indicator is present.
            let ghost ie = rule@.if_exists;
            let mut fires = rule.if_exists.len() == 0;
            let mut k: usize = 0;
            while k < rule.if_exists.len()
                invariant
                    0 <= k <= ie.len(),
                    ie == rule@.if_exists,
                    ie.len() == rule.if_exists@.len(),
                    sib == names_view(siblings@),
                    fires == (ie.len() == 0 || exists|q: int|
                        0 <= q < k && sib.contains(#[trigger] ie[q])),
                decreases ie.len() - k,
            {
                proof {
                    assert(ie[k as int] == rule.if_exists@[k as int]@);
                }
                if names_contain(siblings, &rule.if_exists[k]) {
                    fires = true;
                } else {
                    proof {
                        if !fires && (ie.len() == 0 || exists|q: int|
                            0 <= q < k + 1 && sib.contains(#[trigger] ie[q])) {
                            let q = choose|q: int|
                                0 <= q < k + 1 && sib.contains(#[trigger] ie[q]);
                            assert(0 <= q < k && sib.contains(ie[q]));
                        }
                    }
                }
                k = k + 1;
            }
            if fires {
                out.push(ExclusionAction::Add(path.clone()));
            }
            proof {
                let j = choose|j: int|
                    0 <= j < rv.len() && #[trigger] rv[j] == rule@ && rule_mentions(rv[j], name@)
                        && true == rv[j].excludes.contains(name@) && (forall|k2: int|
                        0 <= k2 < j ==> !rule_mentions(#[trigger] rv[k2], name@));
                if fires {
                    assert(action_paths(out@) =~= seq![path@]);
                } else {
                    assert(action_paths(out@) =~= Seq::<Seq<Seq<char>>>::empty());
                }
                assert(action_paths(out@) == appear_targets(rv[j], path@, sib));
                assert(appear_outcome(rv, path@, sib, action_paths(out@)));
            }
            out
        },
        Some((rule, false)) => {
            // The appeared path is an indicator: exclude every candidate
            // sibling that is present.
            let ghost ev = rule@.excludes;
            let mut k: usize = 0;
            proof {
                assert(ev.take(0) =~= Seq::<Seq<char>>::empty());
                assert(action_paths(out@) =~= present_excludes(ev.take(0), parent@, sib));
            }
            while k < rule.excludes.len()
                invariant
                    0 <= k <= ev.len(),
                    ev == rule@.excludes,
                    ev.len() == rule.excludes@.len(),
                    sib == names_view(siblings@),
                    parent@ == path@.drop_last(),
                    forall|q: int| 0 <= q < out@.len() ==> #[trigger] out@[q] is Add,
                    action_paths(out@) == present_excludes(ev.take(k as int), parent@, sib),
                decreases ev.len() - k,
            {
                proof {
                    assert(ev[k as int] == rule.excludes@[k as int]@);
                    assert(ev.take(k + 1).drop_last() =~= ev.take(k as int));
                    assert(ev.take(k + 1).last() == ev[k as int]);
                }
                let ghost pre_out = out@;
                if names_contain(siblings, &rule.excludes[k]) {
                    out.push(ExclusionAction::Add(parent.join(&rule.excludes[k])));
                    proof {
                        assert(action_paths(out@) =~= action_paths(pre_out).push(
                            parent@.push(ev[k as int]),
                        ));
                    }
                }
                k = k + 1;
            }
            proof {
                assert(ev.take(ev.len() as int) =~= ev);
                let j = choose|j: int|
                    0 <= j < rv.len() && #[trigger] rv[j] == rule@ && rule_mentions(rv[j], name@)
                        && false == rv[j].excludes.contains(name@) && (forall|k2: int|
                        0 <= k2 < j ==> !rule_mentions(#[trigger] rv[k2], name@));
                assert(action_paths(out@) == appear_targets(rv[j], path@, sib));
                assert(appear_outcome(rv, path@, sib, action_paths(out@)));
            }
            out
        },
    }
}

/// The watcher's reaction to one event: something appearing earns the
/// exclusions of [`action_when_appear`]; something vanishing earns the same
/// paths in the same order, turned around into removals; anything else
/// earns nothing.
pub fn match_rule(
    directories: &Vec<Directory>,
    kind: FsEventKind,
    path: &AbsPath,
    siblings: &Vec<String>,
) -> (r: Vec<ExclusionAction>)
    requires
        path@.len() > 0,
    ensures
        kind is Other ==> r@.len() == 0,
        kind is Create ==> (forall|k: int| 0 <= k < r@.len() ==> #[trigger] r@[k] is Add)
            && appear_paths_ok(
            dirs_view(directories@),
            path@,
            names_view(siblings@),
            action_paths(r@),
        ),
        kind is Remove ==> (forall|k: int| 0 <= k < r@.len() ==> #[trigger] r@[k] is Remove)
            && appear_paths_ok(
            dirs_view(directories@),
            path@,
            names_view(siblings@),
            action_paths(r@),
        ),
{
    match kind {
        FsEventKind::Create => action_when_appear(directories, path, siblings),
        FsEventKind::Remove => {
            let mut rest = action_when_appear(directories, path, siblings);
            let ghost appeared = action_paths(rest@);
            let mut out: Vec<ExclusionAction> = Vec::new();
            proof {
                assert(action_paths(out@) =~= appeared.take(0));
            }
            while rest.len() > 0
                invariant
                    forall|k: int| 0 <= k < rest@.len() ==> #[trigger] rest@[k] is Add,
                    forall|k: int| 0 <= k < out@.len() ==> #[trigger] out@[k] is Remove,
                    action_paths(out@) + action_paths(rest@) == appeared,
                decreases rest@.len(),
            {
                let ghost pre_out = out@;
                let ghost pre_rest = rest@;
                let action = rest.remove(0);
                out.push(action.flip());
                proof {
                    assert(action_paths(rest@) =~= action_paths(pre_rest).drop_first());
                    assert(action_paths(out@) =~= action_paths(pre_out).push(
                        action_paths(pre_rest)[0],
                    ));
                    assert(action_paths(out@) + action_paths(rest@) =~= action_paths(pre_out)
                        + action_paths(pre_rest));
                }
            }
            proof {
                assert(action_paths(rest@) =~= Seq::<Seq<Seq<char>>>::empty());
                assert(action_paths(out@) =~= appeared);
            }
            out
        },
        FsEventKind::Other => Vec::new(),
    }
}

} // verus!
