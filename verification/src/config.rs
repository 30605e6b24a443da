//! Configuration types: rules, interested directories, and the resolved walk
//! configuration shared by every scan.

use vstd::prelude::*;

use crate::path::is_prefix_of;
use crate::path::lemma_prefix_trans;
use crate::path::max_common_path;
use crate::path::AbsPath;

verus! {

/// The mathematical content of a [`Rule`].
pub ghost struct RuleView {
    /// Names of children to exclude.
    pub excludes: Seq<Seq<char>>,
    /// Sibling names of which at least one must be present, or empty for an
    /// unconditional rule.
    pub if_exists: Seq<Seq<char>>,
}

/// A rule over the children of a directory: exclude any child whose name is
/// in `excludes`, provided that `if_exists` is empty or some name of
/// `if_exists` is present among the children.
#[derive(Debug)]
pub struct Rule {
    /// Names of children to exclude.
    pub excludes: Vec<String>,
    /// Sibling names of which at least one must be present, or empty for an
    /// unconditional rule.
    pub if_exists: Vec<String>,
}

/// The views of a list of names.
pub open spec fn names_view(s: Seq<String>) -> Seq<Seq<char>> {
    s.map_values(|n: String| n@)
}

impl View for Rule {
    type V = RuleView;

    open spec fn view(&self) -> RuleView {
        RuleView { excludes: names_view(self.excludes@), if_exists: names_view(self.if_exists@) }
    }
}

/// Whether a list of names holds `name`.
pub fn names_contain(v: &Vec<String>, name: &String) -> (r: bool)
    ensures
        r == names_view(v@).contains(name@),
{
    let mut i: usize = 0;
    while i < v.len()
        invariant
            0 <= i <= v@.len(),
            forall|j: int| 0 <= j < i ==> names_view(v@)[j] != name@,
        decreases v@.len() - i,
    {
        if v[i] == *name {
            proof {
                assert(names_view(v@)[i as int] == name@);
            }
            return true;
        }
        proof {
            assert(names_view(v@)[i as int] == v@[i as int]@);
        }
        i = i + 1;
    }
    proof {
        if names_view(v@).contains(name@) {
            let j = choose|j: int| 0 <= j < names_view(v@).len() && names_view(v@)[j] == name@;
            assert(names_view(v@)[j] != name@);
        }
    }
    false
}

/// Clones a list of names, preserving each name.
pub fn clone_names(v: &Vec<String>) -> (r: Vec<String>)
    ensures
        names_view(r@) == names_view(v@),
{
    let mut r: Vec<String> = Vec::new();
    let mut i: usize = 0;
    while i < v.len()
        invariant
            0 <= i <= v@.len(),
            r@.len() == i,
            forall|j: int| 0 <= j < i ==> r@[j]@ == v@[j]@,
        decreases v@.len() - i,
    {
        r.push(v[i].clone());
        i = i + 1;
    }
    proof {
        assert(names_view(r@) =~= names_view(v@));
    }
    r
}

impl Clone for Rule {
    /// Cloning preserves both name lists.
    fn clone(&self) -> (r: Self)
        ensures
            r@ == self@,
    {
        let r = Rule { excludes: clone_names(&self.excludes), if_exists: clone_names(&self.if_exists) };
        proof {
            assert(r@.excludes =~= self@.excludes);
            assert(r@.if_exists =~= self@.if_exists);
        }
        r
    }
}

impl PartialEq for Rule {
    /// Rules are equal when their name lists are.
    fn eq(&self, other: &Self) -> (r: bool) {
        let r = names_equal(&self.excludes, &other.excludes) && names_equal(
            &self.if_exists,
            &other.if_exists,
        );
        r
    }
}

impl vstd::std_specs::cmp::PartialEqSpecImpl for Rule {
    open spec fn obeys_eq_spec() -> bool {
        true
    }

    open spec fn eq_spec(&self, other: &Rule) -> bool {
        self@ == other@
    }
}

impl Eq for Rule {

}

/// Whether two lists of names are equal, name for name.
pub fn names_equal(a: &Vec<String>, b: &Vec<String>) -> (r: bool)
    ensures
        r == (names_view(a@) == names_view(b@)),
{
    if a.len() != b.len() {
        proof {
            assert(names_view(a@).len() != names_view(b@).len());
        }
        return false;
    }
    let mut i: usize = 0;
    while i < a.len()
        invariant
            0 <= i <= a@.len(),
            a@.len() == b@.len(),
            forall|j: int| 0 <= j < i ==> names_view(a@)[j] == names_view(b@)[j],
        decreases a@.len() - i,
    {
        if a[i] == b[i] {
            proof {
                assert(names_view(a@)[i as int] == a@[i as int]@);
                assert(names_view(b@)[i as int] == b@[i as int]@);
            }
            i = i + 1;
        } else {
            proof {
                assert(names_view(a@)[i as int] == a@[i as int]@);
                assert(names_view(b@)[i as int] == b@[i as int]@);
            }
            return false;
        }
    }
    proof {
        assert(names_view(a@) =~= names_view(b@));
    }
    true
}

/// The mathematical content of a [`Directory`].
pub ghost struct DirectoryView {
    /// The directory's absolute path.
    pub path: Seq<Seq<char>>,
    /// The rules bound to the directory.
    pub rules: Seq<RuleView>,
}

/// An interested directory together with the rules that apply beneath it.
#[derive(Debug)]
pub struct Directory {
    /// The directory's absolute, canonical path.
    pub path: AbsPath,
    /// The resolved rules bound to this directory.
    pub rules: Vec<Rule>,
}

/// The views of a list of rules.
pub open spec fn rules_view(s: Seq<Rule>) -> Seq<RuleView> {
    s.map_values(|r: Rule| r@)
}

impl View for Directory {
    type V = DirectoryView;

    open spec fn view(&self) -> DirectoryView {
        DirectoryView { path: self.path@, rules: rules_view(self.rules@) }
    }
}

/// Clones a list of rules, preserving each rule.
pub fn clone_rules(v: &Vec<Rule>) -> (r: Vec<Rule>)
    ensures
        rules_view(r@) == rules_view(v@),
{
    let mut r: Vec<Rule> = Vec::new();
    let mut i: usize = 0;
    while i < v.len()
        invariant
            0 <= i <= v@.len(),
            r@.len() == i,
            forall|j: int| 0 <= j < i ==> r@[j]@ == v@[j]@,
        decreases v@.len() - i,
    {
        r.push(v[i].clone());
        i = i + 1;
    }
    proof {
        assert(rules_view(r@) =~= rules_view(v@));
    }
    r
}

impl Clone for Directory {
    /// Cloning preserves the path and the rules.
    fn clone(&self) -> (r: Self)
        ensures
            r@ == self@,
    {
        let r = Directory { path: self.path.clone(), rules: clone_rules(&self.rules) };
        proof {
            assert(r@ =~= self@);
        }
        r
    }
}

/// The mathematical content of a [`WalkConfig`].
pub ghost struct WalkConfigView {
    /// The interested directories, in configuration order.
    pub directories: Seq<DirectoryView>,
    /// The set of paths that must never be scanned.
    pub skips: Set<Seq<Seq<char>>>,
}

/// The resolved walk configuration: interested directories with their rules,
/// and paths that must never be scanned.
#[derive(Debug)]
pub struct WalkConfig {
    /// The interested directories, in configuration order.
    pub directories: Vec<Directory>,
    /// Paths that must never be scanned or watched.
    pub skips: Vec<AbsPath>,
}

/// The views of a list of directories.
pub open spec fn dirs_view(s: Seq<Directory>) -> Seq<DirectoryView> {
    s.map_values(|d: Directory| d@)
}

/// The set of path views of a list of paths.
pub open spec fn skips_view(s: Seq<AbsPath>) -> Set<Seq<Seq<char>>> {
    s.map_values(|p: AbsPath| p@).to_set()
}

/// Membership in the skip set is membership among the listed paths.
pub proof fn lemma_skips_view_contains(s: Seq<AbsPath>, p: Seq<Seq<char>>)
    ensures
        skips_view(s).contains(p) <==> exists|j: int| #![trigger s[j]] 0 <= j < s.len() && s[j]@
            == p,
{
    let m = s.map_values(|q: AbsPath| q@);
    if m.to_set().contains(p) {
        let i = choose|i: int| 0 <= i < m.len() && m[i] == p;
        assert(s[i]@ == p);
    }
    if exists|j: int| #![trigger s[j]] 0 <= j < s.len() && s[j]@ == p {
        let j = choose|j: int| #![trigger s[j]] 0 <= j < s.len() && s[j]@ == p;
        assert(m[j] == p);
        assert(m.contains(p));
    }
}

impl View for WalkConfig {
    type V = WalkConfigView;

    open spec fn view(&self) -> WalkConfigView {
        WalkConfigView { directories: dirs_view(self.directories@), skips: skips_view(self.skips@) }
    }
}

impl Clone for WalkConfig {
    /// Cloning preserves the directories and the skips.
    fn clone(&self) -> (r: Self)
        ensures
            r@ == self@,
    {
        let mut directories: Vec<Directory> = Vec::new();
        let mut i: usize = 0;
        while i < self.directories.len()
            invariant
                0 <= i <= self.directories@.len(),
                directories@.len() == i,
                forall|j: int| 0 <= j < i ==> directories@[j]@ == self.directories@[j]@,
            decreases self.directories@.len() - i,
        {
            directories.push(self.directories[i].clone());
            i = i + 1;
        }
        let skips = crate::tmutil::clone_paths(&self.skips);
        let r = WalkConfig { directories, skips };
        proof {
            assert(dirs_view(r.directories@) =~= dirs_view(self.directories@));
            assert(r.skips@.map_values(|p: AbsPath| p@) =~= self.skips@.map_values(
                |p: AbsPath| p@,
            ));
            assert(r@ =~= self@);
        }
        r
    }
}

/// The full configuration: the walk configuration and the one policy flag.
#[derive(Debug)]
pub struct Config {
    /// When true, the system may add exclusions but never un-exclude.
    pub no_include: bool,
    /// The resolved walk configuration.
    pub walk: WalkConfig,
}

impl Clone for Config {
    /// Cloning preserves the flag and the walk configuration.
    fn clone(&self) -> (r: Self)
        ensures
            r.no_include == self.no_include,
            r.walk@ == self.walk@,
    {
        Config { no_include: self.no_include, walk: self.walk.clone() }
    }
}

/// Whether `p` is a prefix of every directory path of `dirs`.
pub open spec fn common_ancestor(dirs: Seq<DirectoryView>, p: Seq<Seq<char>>) -> bool {
    forall|i: int| 0 <= i < dirs.len() ==> is_prefix_of(p, #[trigger] dirs[i].path)
}

/// The longest common ancestor of all directory paths: `None` when there are
/// no directories; otherwise the common ancestor of which every common
/// ancestor is a prefix.
pub fn get_root(directories: &Vec<Directory>) -> (r: Option<AbsPath>)
    ensures
        r is None <==> directories@.len() == 0,
        r matches Some(root) ==> common_ancestor(dirs_view(directories@), root@) && (forall|
            p: Seq<Seq<char>>,
        | common_ancestor(dirs_view(directories@), p) ==> is_prefix_of(p, root@)),
{
    if directories.len() == 0 {
        return None;
    }
    let ghost dirs = dirs_view(directories@);
    let mut acc: AbsPath = directories[0].path.clone();
    proof {
        assert(dirs[0].path == directories@[0]@.path);
    }
    let mut i: usize = 1;
    while i < directories.len()
        invariant
            1 <= i <= dirs.len(),
            dirs == dirs_view(directories@),
            dirs.len() == directories@.len(),
            forall|j: int| 0 <= j < i ==> is_prefix_of(acc@, #[trigger] dirs[j].path),
            forall|p: Seq<Seq<char>>|
                (forall|j: int| 0 <= j < i ==> is_prefix_of(p, #[trigger] dirs[j].path))
                    ==> is_prefix_of(p, acc@),
        decreases dirs.len() - i,
    {
        let next = max_common_path(&acc, &directories[i].path);
        proof {
            assert(dirs[i as int].path == directories@[i as int]@.path);
            // Everything below the new accumulator is still an ancestor of the
            // prefix seen so far.
            assert forall|j: int| 0 <= j < i + 1 implies is_prefix_of(
                next@,
                #[trigger] dirs[j].path,
            ) by {
                if j < i {
                    lemma_prefix_trans(next@, acc@, dirs[j].path);
                }
            }
            assert forall|p: Seq<Seq<char>>|
                (forall|j: int| 0 <= j < i + 1 ==> is_prefix_of(
                    p,
                    #[trigger] dirs[j].path,
                )) implies is_prefix_of(p, next@) by {
                assert(is_prefix_of(p, dirs[i as int].path));
                assert(is_prefix_of(p, acc@));
                crate::path::lemma_common_prefix_longest(
                    acc@,
                    dirs[i as int].path,
                    next@,
                    p,
                );
            }
        }
        acc = next;
        i = i + 1;
    }
    Some(acc)
}

/// Whether `p` is among the directory paths of `dirs`.
pub open spec fn is_dir_path(dirs: Seq<DirectoryView>, p: Seq<Seq<char>>) -> bool {
    exists|i: int| 0 <= i < dirs.len() && #[trigger] dirs[i].path == p
}

/// Whether `p` is a directory path with no strictly shorter directory path
/// above it.
pub open spec fn is_minimal_dir_path(dirs: Seq<DirectoryView>, p: Seq<Seq<char>>) -> bool {
    is_dir_path(dirs, p) && forall|q: Seq<Seq<char>>|
        is_dir_path(dirs, q) && #[trigger] is_prefix_of(q, p) ==> q == p
}

/// Squashes the directory paths to the minimal ones: those without a strict
/// ancestor among the directory paths. Every directory path lies beneath
/// exactly one member of the result.
pub fn get_paths(directories: &Vec<Directory>) -> (r: Vec<AbsPath>)
    ensures
        forall|j: int| 0 <= j < r@.len() ==> is_minimal_dir_path(
            dirs_view(directories@),
            #[trigger] r@[j]@,
        ),
        forall|p: Seq<Seq<char>>| is_minimal_dir_path(dirs_view(directories@), p)
            ==> exists|j: int| 0 <= j < r@.len() && #[trigger] r@[j]@ == p,
        forall|j1: int, j2: int| 0 <= j1 < j2 < r@.len() ==> r@[j1]@ != r@[j2]@,
{
    let ghost dirs = dirs_view(directories@);
    let mut r: Vec<AbsPath> = Vec::new();
    let mut i: usize = 0;
    while i < directories.len()
        invariant
            0 <= i <= directories@.len(),
            dirs == dirs_view(directories@),
            dirs.len() == directories@.len(),
            forall|j: int| 0 <= j < r@.len() ==> is_minimal_dir_path(dirs, #[trigger] r@[j]@),
            forall|k: int| 0 <= k < i && is_minimal_dir_path(dirs, #[trigger] dirs[k].path)
                ==> exists|j: int| 0 <= j < r@.len() && #[trigger] r@[j]@ == dirs[k].path,
            forall|j1: int, j2: int| 0 <= j1 < j2 < r@.len() ==> r@[j1]@ != r@[j2]@,
        decreases directories@.len() - i,
    {
        let p = &directories[i].path;
        proof {
            assert(dirs[i as int].path == directories@[i as int]@.path);
        }
        // Is some other directory path a strict ancestor of `p`, or is `p`
        // itself already collected?
        let mut minimal = true;
        let mut k: usize = 0;
        while k < directories.len()
            invariant
                0 <= k <= directories@.len(),
                dirs == dirs_view(directories@),
                dirs.len() == directories@.len(),
                p == &directories[i as int].path,
                i < directories@.len(),
                p@ == dirs[i as int].path,
                minimal ==> forall|q: int| 0 <= q < k ==> !(is_prefix_of(
                    #[trigger] dirs[q].path,
                    p@,
                ) && dirs[q].path != p@),
                !minimal ==> !is_minimal_dir_path(dirs, p@),
            decreases directories@.len() - k,
        {
            proof {
                assert(dirs[k as int].path == directories@[k as int]@.path);
            }
            if directories[k].path.starts_with(p) {
                // An equal or deeper path never disqualifies `p`.
            }
            if p.starts_with(&directories[k].path) && !(directories[k].path == *p) {
                minimal = false;
            }
            k = k + 1;
        }
        if minimal {
            let mut dup = false;
            let mut j: usize = 0;
            while j < r.len()
                invariant
                    0 <= j <= r@.len(),
                    p == &directories[i as int].path,
                    i < directories@.len(),
                    dup ==> exists|q: int| 0 <= q < r@.len() && #[trigger] r@[q]@ == p@,
                    !dup ==> forall|q: int| 0 <= q < j ==> #[trigger] r@[q]@ != p@,
                decreases r@.len() - j,
            {
                if r[j] == *p {
                    dup = true;
                }
                j = j + 1;
            }
            if !dup {
                proof {
                    assert(is_dir_path(dirs, p@));
                    assert forall|q: Seq<Seq<char>>|
                        is_dir_path(dirs, q) && #[trigger] is_prefix_of(q, p@) implies q == p@ by {
                        let m = choose|m: int|
                            0 <= m < dirs.len() && #[trigger] dirs[m].path == q;
                        assert(!(is_prefix_of(dirs[m].path, p@) && dirs[m].path != p@));
                    }
                    assert(is_minimal_dir_path(dirs, p@));
                }
                let ghost old_r = r@;
                r.push(p.clone());
                proof {
                    assert(r@[old_r.len() as int]@ == p@);
                    assert forall|k: int|
                        0 <= k < i && is_minimal_dir_path(
                            dirs,
                            #[trigger] dirs[k].path,
                        ) implies exists|j: int|
                        0 <= j < r@.len() && #[trigger] r@[j]@ == dirs[k].path by {
                        let j = choose|j: int|
                            0 <= j < old_r.len() && #[trigger] old_r[j]@ == dirs[k].path;
                        assert(r@[j]@ == dirs[k].path);
                    }
                }
            }
        }
        i = i + 1;
    }
    r
}

/// Minimal directory paths form an antichain: none is an ancestor of another,
/// and every directory path is a descendant of exactly one of them.
pub proof fn lemma_squash_antichain(dirs: Seq<DirectoryView>, a: Seq<Seq<char>>, b: Seq<Seq<char>>)
    requires
        is_minimal_dir_path(dirs, a),
        is_minimal_dir_path(dirs, b),
        a != b,
    ensures
        !is_prefix_of(a, b),
        !is_prefix_of(b, a),
{
}

/// Every directory path has exactly one minimal directory path above it (or
/// is itself minimal): existence half.
pub proof fn lemma_squash_covers(dirs: Seq<DirectoryView>, p: Seq<Seq<char>>)
    requires
        is_dir_path(dirs, p),
    ensures
        exists|q: Seq<Seq<char>>| is_minimal_dir_path(dirs, q) && #[trigger] is_prefix_of(q, p),
    decreases p.len(),
{
    if is_minimal_dir_path(dirs, p) {
        crate::path::lemma_prefix_refl(p);
        assert(is_minimal_dir_path(dirs, p) && is_prefix_of(p, p));
    } else {
        let q = choose|q: Seq<Seq<char>>|
            is_dir_path(dirs, q) && #[trigger] is_prefix_of(q, p) && q != p;
        assert(q.len() < p.len() || q == p) by {
            if q.len() == p.len() {
                crate::path::lemma_prefix_antisym(q, p);
            }
        }
        lemma_squash_covers(dirs, q);
        let m = choose|m: Seq<Seq<char>>|
            is_minimal_dir_path(dirs, m) && #[trigger] is_prefix_of(m, q);
        lemma_prefix_trans(m, q, p);
        assert(is_minimal_dir_path(dirs, m) && is_prefix_of(m, p));
    }
}

/// Every directory path has at most one minimal directory path above it:
/// uniqueness half.
pub proof fn lemma_squash_unique(
    dirs: Seq<DirectoryView>,
    p: Seq<Seq<char>>,
    a: Seq<Seq<char>>,
    b: Seq<Seq<char>>,
)
    requires
        is_minimal_dir_path(dirs, a),
        is_minimal_dir_path(dirs, b),
        is_prefix_of(a, p),
        is_prefix_of(b, p),
    ensures
        a == b,
{
    if a.len() <= b.len() {
        crate::path::lemma_prefix_comparable(a, b, p);
    } else {
        crate::path::lemma_prefix_comparable(b, a, p);
    }
}

/// How far an apply pass may go.
#[derive(Clone, Copy, PartialEq, Eq, Structural, Debug)]
pub enum ApplyMode {
    /// Report only; never touch the system.
    DryRun,
    /// Add exclusions, but never un-exclude.
    AddOnly,
    /// Add and remove exclusions.
    All,
}

impl Default for ApplyMode {
    /// By default exclusions are added but never removed. Note the contrast
    /// with [`Config`]'s own default: its `no_include` flag defaults to
    /// false, which corresponds to [`ApplyMode::All`]. This default is the
    /// deliberately conservative choice for callers that pick a mode
    /// without consulting a configuration.
    fn default() -> (r: Self)
        ensures
            r is AddOnly,
    {
        ApplyMode::AddOnly
    }
}

/// The default delay between filesystem event batches, in seconds.
pub fn watcher_interval_default() -> (r: u64)
    ensures
        r == 30,
{
    30
}

/// The default delay between full rescans, in seconds.
pub fn rescan_interval_default() -> (r: u64)
    ensures
        r == 86400,
{
    86400
}

/// How often the watcher coalesces events and how often a full rescan runs,
/// both in seconds.
#[derive(Clone, Copy, PartialEq, Eq, Structural, Debug)]
pub struct Interval {
    /// The event coalescing delay, in seconds.
    pub watch: u64,
    /// The full rescan period, in seconds.
    pub rescan: u64,
}

impl Default for Interval {
    /// The default intervals.
    fn default() -> (r: Self)
        ensures
            r.watch == 30 && r.rescan == 86400,
    {
        Interval { watch: watcher_interval_default(), rescan: rescan_interval_default() }
    }
}

/// The error cases of configuration loading and resolution.
#[derive(Debug)]
pub enum ConfigError {
    /// The configuration text could not be deserialized; the payload is the
    /// deserializer's message.
    Deserialize(String),
    /// A rule name is referenced but not defined.
    Rule(String),
    /// No directory to scan.
    NoDirectory,
    /// A directory path is invalid; `path` is the offending input and
    /// `cause` the underlying reason.
    InvalidPath {
        /// The offending path as it stood in the configuration.
        path: String,
        /// The underlying reason, as reported by the filesystem.
        cause: String,
    },
    /// Rule inheritance loops; the payload is the first name re-entered.
    Loop(String),
}

impl WalkConfig {
    /// The common root of all interested directories.
    pub fn root(&self) -> (r: Result<AbsPath, ConfigError>)
        ensures
            r is Err <==> self@.directories.len() == 0,
            r is Err ==> r matches Err(ConfigError::NoDirectory),
            r matches Ok(root) ==> common_ancestor(self@.directories, root@) && (forall|
                p: Seq<Seq<char>>,
            | common_ancestor(self@.directories, p) ==> is_prefix_of(p, root@)),
    {
        match get_root(&self.directories) {
            Some(p) => Ok(p),
            None => Err(ConfigError::NoDirectory),
        }
    }

    /// The squashed set of interested directory paths: those without a strict
    /// ancestor among them.
    pub fn paths(&self) -> (r: Vec<AbsPath>)
        ensures
            forall|j: int| 0 <= j < r@.len() ==> is_minimal_dir_path(
                self@.directories,
                #[trigger] r@[j]@,
            ),
            forall|p: Seq<Seq<char>>| is_minimal_dir_path(self@.directories, p)
                ==> exists|j: int| 0 <= j < r@.len() && #[trigger] r@[j]@ == p,
            forall|j1: int, j2: int| 0 <= j1 < j2 < r@.len() ==> r@[j1]@ != r@[j2]@,
    {
        get_paths(&self.directories)
    }
}

} // verus!
