//! Exclusion actions and action batches: the value types that scans produce
//! and that are ultimately committed to the per-path backup-exclusion
//! attribute.

use vstd::prelude::*;

use crate::path::AbsPath;

verus! {

/// The views of a sequence of paths.
pub open spec fn pathseq_view(s: Seq<AbsPath>) -> Seq<Seq<Seq<char>>> {
    s.map_values(|p: AbsPath| p@)
}

/// A single exclusion change on one path.
#[derive(Debug)]
pub enum ExclusionAction {
    /// Set the backup-exclusion attribute on the path.
    Add(AbsPath),
    /// Clear the backup-exclusion attribute on the path.
    Remove(AbsPath),
}

impl ExclusionAction {
    /// The action on the same path in the opposite direction.
    pub fn flip(self) -> (r: ExclusionAction)
        ensures
            match self {
                ExclusionAction::Add(p) => r matches ExclusionAction::Remove(q) && q@ == p@,
                ExclusionAction::Remove(p) => r matches ExclusionAction::Add(q) && q@ == p@,
            },
    {
        match self {
            ExclusionAction::Add(p) => ExclusionAction::Remove(p),
            ExclusionAction::Remove(p) => ExclusionAction::Add(p),
        }
    }
}

/// A batch of exclusion changes: paths whose attribute should be set and
/// paths whose attribute should be cleared.
#[derive(Debug)]
pub struct ExclusionActionBatch {
    /// Paths to mark as excluded from backups.
    pub add: Vec<AbsPath>,
    /// Paths to mark as included in backups again.
    pub remove: Vec<AbsPath>,
}

impl ExclusionActionBatch {
    /// The empty batch.
    pub fn new() -> (r: ExclusionActionBatch)
        ensures
            r.add@.len() == 0,
            r.remove@.len() == 0,
    {
        ExclusionActionBatch { add: Vec::new(), remove: Vec::new() }
    }

    /// Whether the batch holds no actions.
    pub fn is_empty(&self) -> (r: bool)
        ensures
            r == (self.add@.len() == 0 && self.remove@.len() == 0),
    {
        self.add.len() == 0 && self.remove.len() == 0
    }

    /// The number of actions in the batch.
    pub fn count(&self) -> (n: usize)
        requires
            self.add@.len() + self.remove@.len() <= usize::MAX,
        ensures
            n == self.add@.len() + self.remove@.len(),
    {
        self.add.len() + self.remove.len()
    }

    /// Appends one action to the batch.
    pub fn push(&mut self, action: ExclusionAction)
        ensures
            match action {
                ExclusionAction::Add(p) => final(self).add@ == old(self).add@.push(p)
                    && final(self).remove@ == old(self).remove@,
                ExclusionAction::Remove(p) => final(self).remove@ == old(self).remove@.push(p)
                    && final(self).add@ == old(self).add@,
            },
    {
        match action {
            ExclusionAction::Add(p) => self.add.push(p),
            ExclusionAction::Remove(p) => self.remove.push(p),
        }
    }

    /// Appends all actions of `other` to `self`, keeping order: the merge of
    /// two batches is their pairwise concatenation.
    pub fn merge(&mut self, other: ExclusionActionBatch)
        ensures
            final(self).add@ == old(self).add@ + other.add@,
            final(self).remove@ == old(self).remove@ + other.remove@,
    {
        let mut other = other;
        self.add.append(&mut other.add);
        self.remove.append(&mut other.remove);
    }

    /// Narrows the batch to what the apply mode allows: a dry run keeps
    /// nothing, add-only drops the removals, and full mode keeps the batch
    /// whole.
    pub fn filter_by_mode(self, mode: crate::config::ApplyMode) -> (r: Self)
        ensures
            match mode {
                crate::config::ApplyMode::DryRun => r.add@.len() == 0 && r.remove@.len() == 0,
                crate::config::ApplyMode::AddOnly => r.add@ == self.add@ && r.remove@.len() == 0,
                crate::config::ApplyMode::All => r.add@ == self.add@ && r.remove@ == self.remove@,
            },
    {
        match mode {
            crate::config::ApplyMode::DryRun => ExclusionActionBatch::new(),
            crate::config::ApplyMode::AddOnly => ExclusionActionBatch {
                add: self.add,
                remove: Vec::new(),
            },
            crate::config::ApplyMode::All => self,
        }
    }

    /// Drops every removal from the batch, keeping additions: the shape a
    /// batch takes when the configuration forbids re-including files.
    pub fn clear_removals(&mut self)
        ensures
            final(self).add@ == old(self).add@,
            final(self).remove@.len() == 0,
    {
        self.remove = Vec::new();
    }
}

impl Clone for ExclusionActionBatch {
    /// Cloning preserves both action lists.
    fn clone(&self) -> (r: Self)
        ensures
            pathseq_view(r.add@) == pathseq_view(self.add@),
            pathseq_view(r.remove@) == pathseq_view(self.remove@),
    {
        let add = clone_paths(&self.add);
        let remove = clone_paths(&self.remove);
        ExclusionActionBatch { add, remove }
    }
}

/// The extended attribute consulted by the backup subsystem: its presence on
/// a path means the path is excluded from backups.
///
/// Relies on `xattr::get` on that attribute: whether it is present depends
/// on the state of the filesystem, so nothing is promised of the answer.
#[verifier::external_body]
pub fn is_excluded(path: &AbsPath) -> (r: Result<bool, String>) {
    let mut buf = std::path::PathBuf::from("/");
    for seg in path.segs.iter() {
        buf.push(seg);
    }
    match xattr::get(&buf, "com.apple.metadata:com_apple_backup_excludeItem") {
        Ok(v) => Ok(v.is_some()),
        Err(e) => Err(format!("{}", e)),
    }
}

/// Relies on `xattr::set` and `xattr::remove` on the backup-exclusion
/// attribute: setting writes the attribute, clearing removes it. Whether the
/// write succeeds depends on the filesystem, so nothing is promised beyond
/// the error report.
///
/// Only the attribute itself is written here; the resource-property form of
/// the same flag, which the target platform toggles in tandem with it, is a
/// platform service's view of this attribute and is not touched by this
/// crate. Reads go through the same attribute, so a successful write is
/// read back consistently.
#[verifier::external_body]
fn write_excluded_attr(path: &AbsPath, value: bool) -> (r: Result<(), String>) {
    let mut buf = std::path::PathBuf::from("/");
    for seg in path.segs.iter() {
        buf.push(seg);
    }
    let name = "com.apple.metadata:com_apple_backup_excludeItem";
    let res = if value {
        xattr::set(&buf, name, b"1")
    } else {
        xattr::remove(&buf, name)
    };
    res.map_err(|e| format!("{}", e))
}

/// The per-path failures of applying an exclusion change.
#[derive(Debug)]
pub enum ApplyError {
    /// The path could not be expressed in the form the attribute interface
    /// takes.
    InvalidURL,
    /// The attribute interface reported a failure; the payload is its
    /// message.
    PropertyFail(String),
}

/// The rendered text of an apply failure.
pub open spec fn apply_error_text(e: ApplyError) -> Seq<char> {
    match e {
        ApplyError::InvalidURL => "URL is invalid"@,
        ApplyError::PropertyFail(c) => "Failed to apply rule: "@ + c@,
    }
}

impl ApplyError {
    /// A human-readable message for the failure.
    pub fn message(&self) -> (r: String)
        ensures
            r@ == apply_error_text(*self),
    {
        match self {
            ApplyError::InvalidURL => "URL is invalid".to_owned(),
            ApplyError::PropertyFail(c) => {
                let prefix = "Failed to apply rule: ".to_owned();
                prefix.concat(c.as_str())
            },
        }
    }
}

impl ExclusionAction {
    /// Commits the action to the filesystem: sets the attribute for an
    /// addition, clears it for a removal. Failure is reported per path and
    /// never stops a batch.
    pub fn apply(self) -> (r: Result<(), ApplyError>)
        ensures
            r matches Err(e) ==> e is PropertyFail,
    {
        match self {
            ExclusionAction::Add(path) => match write_excluded_attr(&path, true) {
                Ok(u) => Ok(u),
                Err(cause) => Err(ApplyError::PropertyFail(cause)),
            },
            ExclusionAction::Remove(path) => match write_excluded_attr(&path, false) {
                Ok(u) => Ok(u),
                Err(cause) => Err(ApplyError::PropertyFail(cause)),
            },
        }
    }
}

/// The aggregated per-path failures of one batch, with each failure already
/// rendered as a message.
#[derive(Debug)]
pub struct ApplyErrors {
    /// The failed paths, each with its message.
    pub errors: Vec<(AbsPath, String)>,
}

impl ApplyErrors {
    /// Renders a batch apply outcome: failures keep their paths, in order,
    /// and each message is the rendered text of its failure — nothing is
    /// added or dropped.
    pub fn from(r: Result<(), Vec<(AbsPath, ApplyError)>>) -> (out: Result<(), ApplyErrors>)
        ensures
            r is Ok <==> out is Ok,
            out matches Err(agg) ==> (r matches Err(v) && agg.errors@.len() == v@.len()
                && forall|i: int| 0 <= i < v@.len() ==> #[trigger] agg.errors@[i].0@ == v@[i].0@
                    && agg.errors@[i].1@ == apply_error_text(v@[i].1)),
    {
        match r {
            Ok(u) => Ok(u),
            Err(v) => {
                let mut errors: Vec<(AbsPath, String)> = Vec::new();
                let mut i: usize = 0;
                while i < v.len()
                    invariant
                        0 <= i <= v@.len(),
                        errors@.len() == i,
                        forall|j: int| 0 <= j < i ==> #[trigger] errors@[j].0@ == v@[j].0@
                            && errors@[j].1@ == apply_error_text(v@[j].1),
                    decreases v@.len() - i,
                {
                    let msg = v[i].1.message();
                    errors.push((v[i].0.clone(), msg));
                    i = i + 1;
                }
                Err(ApplyErrors { errors })
            },
        }
    }
}

impl ExclusionActionBatch {
    /// Commits every action in the batch, additions first, each attempted
    /// independently: one failing path never masks progress on another. The
    /// failures, if any, are returned per path, and every reported path is
    /// one of the batch's.
    pub fn apply(self) -> (r: Result<(), Vec<(AbsPath, ApplyError)>>)
        ensures
            r matches Err(v) ==> v@.len() >= 1 && forall|i: int| 0 <= i < v@.len()
                ==> pathseq_view(self.add@).contains(#[trigger] v@[i].0@) || pathseq_view(
                self.remove@,
            ).contains(v@[i].0@),
    {
        let ghost add_views = pathseq_view(self.add@);
        let ghost rm_views = pathseq_view(self.remove@);
        let mut errors: Vec<(AbsPath, ApplyError)> = Vec::new();
        let mut i: usize = 0;
        let add = self.add;
        let remove = self.remove;
        while i < add.len()
            invariant
                0 <= i <= add@.len(),
                add_views == pathseq_view(add@),
                rm_views == pathseq_view(remove@),
                forall|j: int| 0 <= j < errors@.len() ==> add_views.contains(
                    #[trigger] errors@[j].0@,
                ) || rm_views.contains(errors@[j].0@),
            decreases add@.len() - i,
        {
            let path = add[i].clone();
            proof {
                assert(add_views[i as int] == add@[i as int]@);
            }
            match ExclusionAction::Add(path.clone()).apply() {
                Ok(_) => {},
                Err(e) => {
                    errors.push((path, e));
                },
            }
            i = i + 1;
        }
        let mut j: usize = 0;
        while j < remove.len()
            invariant
                0 <= j <= remove@.len(),
                add_views == pathseq_view(add@),
                rm_views == pathseq_view(remove@),
                forall|k: int| 0 <= k < errors@.len() ==> add_views.contains(
                    #[trigger] errors@[k].0@,
                ) || rm_views.contains(errors@[k].0@),
            decreases remove@.len() - j,
        {
            let path = remove[j].clone();
            proof {
                assert(rm_views[j as int] == remove@[j as int]@);
            }
            match ExclusionAction::Remove(path.clone()).apply() {
                Ok(_) => {},
                Err(e) => {
                    errors.push((path, e));
                },
            }
            j = j + 1;
        }
        if errors.len() == 0 {
            Ok(())
        } else {
            Err(errors)
        }
    }
}

/// Clones a list of paths, preserving each path's components.
pub fn clone_paths(v: &Vec<AbsPath>) -> (r: Vec<AbsPath>)
    ensures
        pathseq_view(r@) == pathseq_view(v@),
{
    let mut r: Vec<AbsPath> = Vec::new();
    let mut i: usize = 0;
    while i < v.len()
        invariant
            0 <= i <= v@.len(),
            r@.len() == i,
            forall|j: int| 0 <= j < i ==> r@[j]@ == v@[j]@,
        decreases v@.len() - i,
    {
        r.push(v[i].clone());
        i = i + 1;
    }
    proof {
        assert(pathseq_view(r@) =~= pathseq_view(v@));
    }
    r
}

} // verus!
