//! The workspace: the directory where working-copy files live and, under
//! its `.jj` subdirectory, the repository.
//!
//! The engine models the workspace layout and its decisions; the caller
//! performs the directory probes and creations and hands their outcomes in
//! as plain values, and creates the storage backend itself.

use vstd::prelude::*;

use crate::fspath::FsPath;
use crate::repo::ReadonlyRepo;
use crate::store::CommitId;

verus! {

/// Initialization refused: the destination repo directory already exists.
#[derive(Debug, PartialEq, Eq)]
pub enum WorkspaceInitError {
    DestinationExists(FsPath),
}

/// Loading failed: no repository here or in any parent directory.
#[derive(Debug, PartialEq, Eq)]
pub enum WorkspaceLoadError {
    NoWorkspaceHere(FsPath),
}

/// Where one repository's snapshots are loaded from.
#[derive(Debug, PartialEq, Eq)]
pub struct RepoLoader {
    pub repo_path: FsPath,
}

impl RepoLoader {
    /// A loader over the repository at `repo_path`.
    pub fn init(repo_path: FsPath) -> (r: RepoLoader)
        ensures
            r.repo_path@ == repo_path@,
    {
        RepoLoader { repo_path }
    }

    /// The path of the repository this loader reads.
    pub fn repo_path(&self) -> (r: &FsPath)
        ensures
            r@ == self.repo_path@,
    {
        &self.repo_path
    }
}

/// The working copy: where checked-out files live and where its own state
/// is kept, together with the commit checked out into it. The files
/// themselves are the caller's business.
#[derive(Debug, PartialEq, Eq)]
pub struct WorkingCopy {
    pub workspace_root: FsPath,
    pub state_path: FsPath,
    pub checked_out: Option<CommitId>,
}

impl WorkingCopy {
    /// A fresh working copy, nothing checked out yet.
    pub fn init(workspace_root: FsPath, state_path: FsPath) -> (r: WorkingCopy)
        ensures
            r.workspace_root@ == workspace_root@,
            r.state_path@ == state_path@,
            r.checked_out is None,
    {
        WorkingCopy { workspace_root, state_path, checked_out: None }
    }

    /// An existing working copy whose on-disk state the caller reads; which
    /// commit it holds is not modeled until the next checkout.
    pub fn load(workspace_root: FsPath, state_path: FsPath) -> (r: WorkingCopy)
        ensures
            r.workspace_root@ == workspace_root@,
            r.state_path@ == state_path@,
            r.checked_out is None,
    {
        WorkingCopy { workspace_root, state_path, checked_out: None }
    }

    /// Records `commit_id` as the commit checked out into this working
    /// copy; materializing its files is the caller's work.
    pub fn check_out(&mut self, commit_id: CommitId)
        ensures
            final(self).workspace_root@ == old(self).workspace_root@,
            final(self).state_path@ == old(self).state_path@,
            final(self).checked_out matches Some(id) && id@ == commit_id@,
    {
        self.checked_out = Some(commit_id);
    }
}

/// The repo directory of a workspace: its `.jj` subdirectory. `Ok` exactly
/// when it does not exist yet.
fn create_jj_dir(workspace_root: &FsPath, jj_dir_exists: bool) -> (r: Result<
    FsPath,
    WorkspaceInitError,
>)
    ensures
        match r {
            Ok(p) => !jj_dir_exists && p@ == workspace_root@.push(".jj"@),
            Err(WorkspaceInitError::DestinationExists(p)) => jj_dir_exists
                && p@ == workspace_root@.push(".jj"@),
        },
{
    let jj_dir = workspace_root.join(".jj");
    if jj_dir_exists {
        Err(WorkspaceInitError::DestinationExists(jj_dir))
    } else {
        Ok(jj_dir)
    }
}

/// The working copy of a fresh workspace, checked out at the snapshot's
/// checkout commit; the caller materializes that commit's files.
pub fn init_working_copy(repo: &ReadonlyRepo, workspace_root: &FsPath, jj_dir: &FsPath) -> (r:
    WorkingCopy)
    requires
        repo.wf(),
    ensures
        r.workspace_root@ == workspace_root@,
        r.state_path@ == jj_dir@.push("working_copy"@),
        r.checked_out matches Some(id) && id@ == repo.model().checkout,
{
    let state_path = jj_dir.join("working_copy");
    let mut working_copy = WorkingCopy::init(workspace_root.clone(), state_path);
    working_copy.check_out(repo.view.checkout.clone());
    working_copy
}

/// A workspace: the working-copy root directory, a loader for the
/// repository under it, and the working copy itself.
pub struct Workspace {
    pub workspace_root: FsPath,
    pub repo_loader: RepoLoader,
    pub working_copy: WorkingCopy,
}

/// What a freshly initialized workspace at `workspace_root` looks like,
/// checked out at `repo`'s checkout.
pub open spec fn fresh_workspace(ws: Workspace, workspace_root: Seq<Seq<char>>, repo: ReadonlyRepo) -> bool {
    &&& ws.workspace_root@ == workspace_root
    &&& ws.repo_loader.repo_path@ == workspace_root.push(".jj"@)
    &&& ws.working_copy.workspace_root@ == workspace_root
    &&& ws.working_copy.state_path@ == workspace_root.push(".jj"@).push("working_copy"@)
    &&& ws.working_copy.checked_out matches Some(id) && id@ == repo.model().checkout
}

impl Workspace {
    /// The shared layout of the three initializers: refuse an existing
    /// `.jj` directory, else lay the workspace out around the snapshot.
    fn init_with(workspace_root: FsPath, jj_dir_exists: bool, repo: ReadonlyRepo) -> (r: Result<
        (Workspace, ReadonlyRepo),
        WorkspaceInitError,
    >)
        requires
            repo.wf(),
        ensures
            jj_dir_exists ==> (r matches Err(WorkspaceInitError::DestinationExists(p))
                && p@ == workspace_root@.push(".jj"@)),
            !jj_dir_exists ==> (r matches Ok(pair)
                && fresh_workspace(pair.0, workspace_root@, repo) && pair.1 == repo),
    {
        let jj_dir = match create_jj_dir(&workspace_root, jj_dir_exists) {
            Ok(p) => p,
            Err(e) => {
                return Err(e);
            },
        };
        let working_copy = init_working_copy(&repo, &workspace_root, &jj_dir);
        let repo_loader = RepoLoader::init(jj_dir);
        let workspace = Workspace { workspace_root, repo_loader, working_copy };
        Ok((workspace, repo))
    }

    /// A fresh workspace over a repository with the native local backend;
    /// the caller has created that backend and hands its first snapshot in.
    pub fn init_local(workspace_root: FsPath, jj_dir_exists: bool, repo: ReadonlyRepo) -> (r:
        Result<(Workspace, ReadonlyRepo), WorkspaceInitError>)
        requires
            repo.wf(),
        ensures
            jj_dir_exists ==> (r matches Err(WorkspaceInitError::DestinationExists(p))
                && p@ == workspace_root@.push(".jj"@)),
            !jj_dir_exists ==> (r matches Ok(pair)
                && fresh_workspace(pair.0, workspace_root@, repo) && pair.1 == repo),
    {
        Self::init_with(workspace_root, jj_dir_exists, repo)
    }

    /// As `init_local`, over a git backend embedded in the `.jj` directory.
    pub fn init_internal_git(workspace_root: FsPath, jj_dir_exists: bool, repo: ReadonlyRepo) -> (r:
        Result<(Workspace, ReadonlyRepo), WorkspaceInitError>)
        requires
            repo.wf(),
        ensures
            jj_dir_exists ==> (r matches Err(WorkspaceInitError::DestinationExists(p))
                && p@ == workspace_root@.push(".jj"@)),
            !jj_dir_exists ==> (r matches Ok(pair)
                && fresh_workspace(pair.0, workspace_root@, repo) && pair.1 == repo),
    {
        Self::init_with(workspace_root, jj_dir_exists, repo)
    }

    /// As `init_local`, over a git repository elsewhere on disk; the caller
    /// connects the backend to it.
    pub fn init_external_git(workspace_root: FsPath, jj_dir_exists: bool, repo: ReadonlyRepo) -> (r:
        Result<(Workspace, ReadonlyRepo), WorkspaceInitError>)
        requires
            repo.wf(),
        ensures
            jj_dir_exists ==> (r matches Err(WorkspaceInitError::DestinationExists(p))
                && p@ == workspace_root@.push(".jj"@)),
            !jj_dir_exists ==> (r matches Ok(pair)
                && fresh_workspace(pair.0, workspace_root@, repo) && pair.1 == repo),
    {
        Self::init_with(workspace_root, jj_dir_exists, repo)
    }

    /// Loads the workspace at or above `workspace_path`. `jj_exists[i]`
    /// says whether the i-th ancestor of the path — the path itself first —
    /// has a `.jj` directory; the caller probes the filesystem for these.
    pub fn load(workspace_path: FsPath, jj_exists: &Vec<bool>) -> (r: Result<
        Workspace,
        WorkspaceLoadError,
    >)
        requires
            jj_exists@.len() == workspace_path@.len() + 1,
        ensures
            match r {
                Ok(ws) => exists|i: int| #[trigger] first_hit(jj_exists@, i) && {
                    &&& ws.workspace_root@
                        == workspace_path@.take(workspace_path@.len() - i)
                    &&& ws.repo_loader.repo_path@
                        == workspace_path@.take(workspace_path@.len() - i).push(".jj"@)
                    &&& ws.working_copy.workspace_root@ == ws.workspace_root@
                    &&& ws.working_copy.state_path@
                        == ws.repo_loader.repo_path@.push("working_copy"@)
                    &&& ws.working_copy.checked_out is None
                },
                Err(WorkspaceLoadError::NoWorkspaceHere(p)) => p@ == workspace_path@
                    && forall|i: int| 0 <= i < jj_exists@.len() ==> !jj_exists@[i],
            },
    {
        let repo_path = match find_repo_dir(&workspace_path, jj_exists) {
            Some(p) => p,
            None => {
                return Err(WorkspaceLoadError::NoWorkspaceHere(workspace_path));
            },
        };
        let ghost i = choose|i: int| #[trigger] first_hit(jj_exists@, i)
            && repo_path@ == workspace_path@.take(workspace_path@.len() - i).push(".jj"@);
        let workspace_root = repo_path.parent().unwrap();
        proof {
            assert(workspace_root@ =~= workspace_path@.take(workspace_path@.len() - i));
        }
        let repo_loader = RepoLoader::init(repo_path);
        let working_copy_state_path = repo_loader.repo_path().join("working_copy");
        let working_copy = WorkingCopy::load(workspace_root.clone(), working_copy_state_path);
        let ws = Workspace { workspace_root, repo_loader, working_copy };
        proof {
            assert(first_hit(jj_exists@, i) && {
                &&& ws.workspace_root@ == workspace_path@.take(workspace_path@.len() - i)
                &&& ws.repo_loader.repo_path@
                    == workspace_path@.take(workspace_path@.len() - i).push(".jj"@)
                &&& ws.working_copy.workspace_root@ == ws.workspace_root@
                &&& ws.working_copy.state_path@
                    == ws.repo_loader.repo_path@.push("working_copy"@)
                &&& ws.working_copy.checked_out is None
            });
        }
        Ok(ws)
    }

    /// The workspace root: where working-copy files live.
    pub fn workspace_root(&self) -> (r: &FsPath)
        ensures
            r@ == self.workspace_root@,
    {
        &self.workspace_root
    }

    /// The path of the repository, typically the `.jj` directory.
    pub fn repo_path(&self) -> (r: &FsPath)
        ensures
            r@ == self.repo_loader.repo_path@,
    {
        self.repo_loader.repo_path()
    }

    /// The loader for the repository under this workspace.
    pub fn repo_loader(&self) -> (r: &RepoLoader)
        ensures
            r == &self.repo_loader,
    {
        &self.repo_loader
    }

    /// The working copy of this workspace.
    pub fn working_copy(&self) -> (r: &WorkingCopy)
        ensures
            r == &self.working_copy,
    {
        &self.working_copy
    }

    /// The working copy of this workspace, for checking out: whatever the
    /// caller writes through the reference lands in this workspace's
    /// working copy, and nothing else changes.
    pub fn working_copy_mut(&mut self) -> (r: &mut WorkingCopy)
        ensures
            *r == old(self).working_copy,
            final(self).working_copy == *final(r),
            final(self).workspace_root == old(self).workspace_root,
            final(self).repo_loader == old(self).repo_loader,
    {
        &mut self.working_copy
    }
}

/// Position `i` is the nearest ancestor with a `.jj` directory: the flag
/// holds there and at none before it.
pub open spec fn first_hit(flags: Seq<bool>, i: int) -> bool {
    0 <= i < flags.len() && flags[i] && forall|j: int| 0 <= j < i ==> !(#[trigger] flags[j])
}

/// Walks from `workspace_root` upward to the nearest ancestor that has a
/// `.jj` directory and returns that directory; `jj_exists[i]` is the
/// caller's probe of the i-th ancestor, the path itself first.
pub fn find_repo_dir(workspace_root: &FsPath, jj_exists: &Vec<bool>) -> (r: Option<FsPath>)
    requires
        jj_exists@.len() == workspace_root@.len() + 1,
    ensures
        match r {
            Some(p) => exists|i: int| #[trigger] first_hit(jj_exists@, i)
                && p@ == workspace_root@.take(workspace_root@.len() - i).push(".jj"@),
            None => forall|i: int| 0 <= i < jj_exists@.len() ==> !jj_exists@[i],
        },
{
    let rl = workspace_root.components.len();
    let n = jj_exists.len();
    let mut current = workspace_root.clone();
    let mut i: usize = 0;
    while i < n
        invariant
            i <= n,
            n == jj_exists@.len(),
            rl == workspace_root@.len(),
            n == rl + 1,
            i <= rl ==> current@ == workspace_root@.take(rl - i),
            forall|j: int| 0 <= j < i ==> !jj_exists@[j],
        decreases n - i,
    {
        if jj_exists[i] {
            let p = current.join(".jj");
            proof {
                assert(first_hit(jj_exists@, i as int));
            }
            return Some(p);
        }
        if i + 1 <= rl {
            current = current.parent().unwrap();
            proof {
                assert(current@ =~= workspace_root@.take(rl - (i + 1)));
            }
        }
        i = i + 1;
    }
    None
}

} // verus!
