use jujube_lib::fspath::FsPath;
use jujube_lib::repo::{ReadonlyRepo, RepoView};
use jujube_lib::store::{CommitId, Store};
use jujube_lib::workspace::{
    find_repo_dir, Workspace, WorkspaceInitError, WorkspaceLoadError,
};

fn path(components: &[&str]) -> FsPath {
    FsPath::from_components(components.iter().map(|c| c.to_string()).collect())
}

fn fresh_repo() -> ReadonlyRepo {
    let root = CommitId::from_hex("0000000000000000000000000000000000000000").unwrap();
    let store = Store::init(root.clone());
    let view = RepoView::new(root);
    ReadonlyRepo::init(store, view)
}

#[test]
fn test_init_local_lays_out_workspace() {
    let repo = fresh_repo();
    let result = Workspace::init_local(path(&["home", "user", "repo"]), false, repo);
    let (workspace, repo) = result.unwrap();
    assert_eq!(workspace.workspace_root(), &path(&["home", "user", "repo"]));
    assert_eq!(workspace.repo_path(), &path(&["home", "user", "repo", ".jj"]));
    assert_eq!(
        workspace.working_copy().state_path,
        path(&["home", "user", "repo", ".jj", "working_copy"])
    );
    assert_eq!(
        workspace.working_copy().checked_out,
        Some(repo.view.checkout.clone())
    );
}

#[test]
fn test_init_refuses_existing_destination() {
    let repo = fresh_repo();
    let result = Workspace::init_internal_git(path(&["work"]), true, repo);
    assert_eq!(
        result.err(),
        Some(WorkspaceInitError::DestinationExists(path(&["work", ".jj"])))
    );
    let repo = fresh_repo();
    let result = Workspace::init_external_git(path(&["work"]), true, repo);
    assert_eq!(
        result.err(),
        Some(WorkspaceInitError::DestinationExists(path(&["work", ".jj"])))
    );
}

#[test]
fn test_find_repo_dir_picks_nearest_ancestor() {
    let start = path(&["home", "user", "repo", "sub"]);
    // Probes for: the path itself, then each parent, outward bound last.
    let probes = vec![false, true, true, false, false];
    assert_eq!(
        find_repo_dir(&start, &probes),
        Some(path(&["home", "user", "repo", ".jj"]))
    );
    let nowhere = vec![false, false, false, false, false];
    assert_eq!(find_repo_dir(&start, &nowhere), None);
    // A hit on the path itself wins.
    let here = vec![true, true, false, false, false];
    assert_eq!(
        find_repo_dir(&start, &here),
        Some(path(&["home", "user", "repo", "sub", ".jj"]))
    );
}

#[test]
fn test_load_finds_workspace_above() {
    let start = path(&["home", "user", "repo", "sub"]);
    let probes = vec![false, true, false, false, false];
    let workspace = Workspace::load(start, &probes).unwrap();
    assert_eq!(workspace.workspace_root(), &path(&["home", "user", "repo"]));
    assert_eq!(workspace.repo_path(), &path(&["home", "user", "repo", ".jj"]));
    assert_eq!(
        workspace.working_copy().state_path,
        path(&["home", "user", "repo", ".jj", "working_copy"])
    );
    assert_eq!(workspace.working_copy().checked_out, None);
}

#[test]
fn test_load_fails_without_repo() {
    let start = path(&["lonely"]);
    let probes = vec![false, false];
    assert_eq!(
        Workspace::load(start, &probes).err(),
        Some(WorkspaceLoadError::NoWorkspaceHere(path(&["lonely"])))
    );
}

#[test]
fn test_working_copy_mut_checks_out() {
    let repo = fresh_repo();
    let (mut workspace, _repo) = Workspace::init_local(path(&["w"]), false, repo).unwrap();
    let other = CommitId::from_hex("1111111111111111111111111111111111111111").unwrap();
    workspace.working_copy_mut().check_out(other.clone());
    assert_eq!(workspace.working_copy().checked_out, Some(other));
    assert_eq!(workspace.repo_loader().repo_path(), &path(&["w", ".jj"]));
}
