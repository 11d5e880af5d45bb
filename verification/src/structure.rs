//! What a manifest says without positions: whether it is a workspace, a
//! member of one or a plain package, and where it and its lock file are.
use vstd::prelude::*;
use crate::positioned::{Positioned, PositionedInfo};
use crate::raw::RangeExclusive;

verus! {

/// The text at a range.
pub fn str_to_positioned(str: &str, range: &RangeExclusive) -> (r: Positioned<String>)
    ensures
        r.start == range.start,
        r.end == range.end,
        r.data@ == str@,
{
    Positioned { start: range.start, end: range.end, data: crate::text::owned(str) }
}

/// Where a manifest stands among workspaces.
#[derive(Debug, Clone)]
pub enum Workspace {
    /// A workspace manifest, with the locations of its members.
    Workspace { members: Vec<String> },
    /// A member of the workspace whose manifest is at `path`.
    WorkspaceModule { path: String },
    /// A package outside any workspace.
    Package,
}

impl Workspace {
    /// A workspace without members.
    pub fn workspace() -> (r: Self)
        ensures
            r matches Workspace::Workspace { members } && members@.len() == 0,
    {
        Workspace::Workspace { members: Vec::new() }
    }

    /// A member of the workspace at `path`.
    pub fn module(path: String) -> (r: Self)
        ensures
            r == (Workspace::WorkspaceModule { path }),
    {
        Workspace::WorkspaceModule { path }
    }

    /// A package outside any workspace.
    pub fn package() -> (r: Self)
        ensures
            r is Package,
    {
        Workspace::Package
    }

    /// A package outside any workspace.
    pub fn default() -> (r: Self)
        ensures
            r is Package,
    {
        Workspace::Package
    }
}

/// What a manifest says without positions.
#[derive(Debug)]
pub struct Info {
    pub workspace: Workspace,
}

impl Info {
    /// A plain package.
    pub fn default() -> (r: Self)
        ensures
            r.workspace is Package,
    {
        Info { workspace: Workspace::Package }
    }

    /// Adds members: to the end of the list of a workspace, or, for any other
    /// manifest, as the members of what becomes a workspace.
    pub fn add_workspace_members(&mut self, new_members: Vec<String>)
        ensures
            final(self).workspace matches Workspace::Workspace { members } && members@ == match old(
                self,
            ).workspace {
                Workspace::Workspace { members: before } => before@ + new_members@,
                _ => new_members@,
            },
    {
        let mut new_members = new_members;
        match &mut self.workspace {
            Workspace::Workspace { members } => {
                members.append(&mut new_members);
            },
            _ => {
                self.workspace = Workspace::Workspace { members: new_members };
            },
        }
    }
}

/// Names the path that `Path::join` makes of `base` and `member`, as text.
pub uninterp spec fn joined_path(base: Seq<char>, member: Seq<char>) -> Seq<char>;

/// Joins `member` to `base` with `Path::join`. Claims that the result, as
/// text, is the one the name `joined_path` gives for these two texts.
#[verifier::external_body]
fn join_path(base: &str, member: &str) -> (r: String)
    ensures
        r@ == joined_path(base@, member@),
{
    std::path::Path::new(base).join(member).to_string_lossy().into_owned()
}

/// A manifest: where it is, where its lock file is, and what it says.
#[derive(Debug)]
pub struct Cargo {
    /// Path to the Cargo.toml file
    pub path: String,
    pub lock_file_path: Option<String>,
    /// What the file says without positions.
    pub info: Info,
    /// Dependencies and features with their positions.
    pub positioned_info: PositionedInfo,
}

impl Cargo {
    /// Forgets the workspace members, the dependencies and the features.
    pub fn clean(&mut self)
        ensures
            final(self).path == old(self).path,
            final(self).lock_file_path == old(self).lock_file_path,
            match old(self).info.workspace {
                Workspace::Workspace { .. } => final(self).info.workspace matches Workspace::Workspace { members }
                    && members@.len() == 0,
                _ => final(self).info.workspace == old(self).info.workspace,
            },
            final(self).positioned_info.dependencies@.len() == 0,
            final(self).positioned_info.features@.len() == 0,
    {
        match &mut self.info.workspace {
            Workspace::Workspace { members } => {
                members.clear();
            },
            _ => {},
        }
        self.positioned_info.dependencies = Vec::new();
        self.positioned_info.features = Vec::new();
    }

    /// A manifest at `path`. When no lock file is known yet, `found` (the
    /// lock file found next to the manifest or above it, if any) becomes the
    /// known one.
    pub fn new(path: String, lock_file_path: &mut Option<String>, found: Option<String>, workspace: Workspace) -> (r: Self)
        ensures
            *final(lock_file_path) == match *old(lock_file_path) {
                Some(p) => Some(p),
                None => found,
            },
            r.path == path,
            r.lock_file_path == *final(lock_file_path),
            r.info.workspace == workspace,
            r.positioned_info.dependencies@.len() == 0,
            r.positioned_info.features@.len() == 0,
    {
        if lock_file_path.is_none() {
            if let Some(lock_file) = found {
                *lock_file_path = Some(lock_file);
            }
        }
        Self {
            path,
            lock_file_path: lock_file_path.clone(),
            info: Info { workspace },
            positioned_info: PositionedInfo::default(),
        }
    }

    /// The paths of the workspace members, each joined to the manifest's
    /// path; none for a manifest that is not a workspace.
    pub fn get_members(&self) -> (r: Vec<String>)
        ensures
            match self.info.workspace {
                Workspace::Workspace { members } => r@.len() == members@.len() && forall|i: int|
                    0 <= i < members@.len() ==> (#[trigger] r@[i])@ == joined_path(self.path@, members@[i]@),
                _ => r@.len() == 0,
            },
    {
        let mut out: Vec<String> = Vec::new();
        match &self.info.workspace {
            Workspace::Workspace { members } => {
                let mut i: usize = 0;
                while i < members.len()
                    invariant
                        i <= members@.len(),
                        out@.len() == i,
                        forall|k: int| 0 <= k < i ==> (#[trigger] out@[k])@ == joined_path(self.path@, members@[k]@),
                    decreases members.len() - i,
                {
                    out.push(join_path(self.path.as_str(), members[i].as_str()));
                    i = i + 1;
                }
            },
            _ => {},
        }
        out
    }
}


/// Whether one of the texts is `s`.
pub(crate) fn holds_text(v: &Vec<String>, s: &str) -> (r: bool)
    ensures
        r == crate::info_api::string_views(v@).contains(s@),
{
    let mut i: usize = 0;
    while i < v.len()
        invariant
            i <= v@.len(),
            forall|k: int| 0 <= k < i ==> v@[k]@ != s@,
        decreases v.len() - i,
    {
        if crate::text::same_text(v[i].as_str(), s) {
            assert(crate::info_api::string_views(v@)[i as int] == s@);
            return true;
        }
        i = i + 1;
    }
    false
}

} // verus!
