use jujube_lib::repo::{ReadonlyRepo, RepoView};
use jujube_lib::revset::{
    evaluate_expression, parse, resolve_symbol, RevsetError, RevsetExpression, RevsetParseError,
};
use jujube_lib::store::{Commit, CommitId, Store};

fn id(hex: &str) -> CommitId {
    CommitId::from_hex(hex).unwrap()
}

const ROOT_HEX: &str = "0000000000000000000000000000000000000000";

fn resolve_commit_ids(repo: &ReadonlyRepo, revset_str: &str) -> Vec<CommitId> {
    let expression = parse(revset_str).unwrap();
    evaluate_expression(repo, &expression).unwrap()
}

#[test]
fn test_resolve_symbol_root() {
    let root = id(ROOT_HEX);
    let store = Store::init(root.clone());
    let view = RepoView::new(root.clone());
    let repo = ReadonlyRepo::init(store, view);

    assert_eq!(
        resolve_symbol(&repo, "root").unwrap(),
        Commit::new(root, Vec::new())
    );
}

#[test]
fn test_resolve_symbol_commit_id() {
    let root = id(ROOT_HEX);
    let mut store = Store::init(root.clone());

    let mut commits = vec![];
    for hex in &[
        "0454de3cae04c46cda37ba2e8873b4c17ff51dcb",
        "045f56cd1b17e8abde86771e2705395dcde6a957",
        "0468f7da8de2ce442f512aacf83411d26cd2e0cf",
    ] {
        let commit = Commit::new(id(hex), vec![root.clone()]);
        store.add_commit(commit.clone());
        commits.push(commit);
    }
    let view = RepoView::new(root.clone());
    let repo = ReadonlyRepo::init(store, view);

    // Test the test setup
    assert_eq!(commits[0].id.hex(), "0454de3cae04c46cda37ba2e8873b4c17ff51dcb");
    assert_eq!(commits[1].id.hex(), "045f56cd1b17e8abde86771e2705395dcde6a957");
    assert_eq!(commits[2].id.hex(), "0468f7da8de2ce442f512aacf83411d26cd2e0cf");

    // Test lookup by full commit id
    assert_eq!(
        resolve_symbol(&repo, "0454de3cae04c46cda37ba2e8873b4c17ff51dcb").unwrap(),
        commits[0]
    );
    assert_eq!(
        resolve_symbol(&repo, "045f56cd1b17e8abde86771e2705395dcde6a957").unwrap(),
        commits[1]
    );
    assert_eq!(
        resolve_symbol(&repo, "0468f7da8de2ce442f512aacf83411d26cd2e0cf").unwrap(),
        commits[2]
    );

    // Test commit id prefix
    assert_eq!(resolve_symbol(&repo, "046").unwrap(), commits[2]);
    assert_eq!(
        resolve_symbol(&repo, "04"),
        Err(RevsetError::AmbiguousCommitIdPrefix("04".to_string()))
    );
    assert_eq!(
        resolve_symbol(&repo, ""),
        Err(RevsetError::AmbiguousCommitIdPrefix("".to_string()))
    );
    assert_eq!(
        resolve_symbol(&repo, "040"),
        Err(RevsetError::NoSuchRevision("040".to_string()))
    );

    // Test non-hex string
    assert_eq!(
        resolve_symbol(&repo, "foo"),
        Err(RevsetError::NoSuchRevision("foo".to_string()))
    );
}

#[test]
fn test_resolve_symbol_checkout() {
    let root = id(ROOT_HEX);
    let mut store = Store::init(root.clone());
    let commit1 = Commit::new(id("aaaa111111111111111111111111111111111111"), vec![root.clone()]);
    let commit2 = Commit::new(id("bbbb222222222222222222222222222222222222"), vec![root.clone()]);
    store.add_commit(commit1.clone());
    store.add_commit(commit2.clone());

    let view = RepoView::new(commit1.id.clone());
    let repo = ReadonlyRepo::init(store, view);
    assert_eq!(resolve_symbol(&repo, "@").unwrap(), commit1);

    let mut repo = repo;
    repo.view.checkout = commit2.id.clone();
    assert_eq!(resolve_symbol(&repo, "@").unwrap(), commit2);
}

#[test]
fn test_resolve_symbol_git_refs() {
    let root = id(ROOT_HEX);
    let mut store = Store::init(root.clone());
    let commit1 = Commit::new(id("1111111111111111111111111111111111111111"), vec![root.clone()]);
    let commit2 = Commit::new(id("2222222222222222222222222222222222222222"), vec![root.clone()]);
    let commit3 = Commit::new(id("3333333333333333333333333333333333333333"), vec![root.clone()]);
    let commit4 = Commit::new(id("4444444444444444444444444444444444444444"), vec![root.clone()]);
    let commit5 = Commit::new(id("5555555555555555555555555555555555555555"), vec![root.clone()]);
    store.add_commit(commit1.clone());
    store.add_commit(commit2.clone());
    store.add_commit(commit3.clone());
    store.add_commit(commit4.clone());
    store.add_commit(commit5.clone());

    let mut view = RepoView::new(commit1.id.clone());
    view.insert_git_ref("refs/heads/branch1".to_string(), commit1.id.clone());
    view.insert_git_ref("refs/heads/branch2".to_string(), commit2.id.clone());
    view.insert_git_ref("refs/tags/tag1".to_string(), commit2.id.clone());
    view.insert_git_ref(
        "refs/tags/remotes/origin/branch1".to_string(),
        commit3.id.clone(),
    );
    let mut repo = ReadonlyRepo::init(store, view);

    // Non-existent ref
    assert_eq!(
        resolve_symbol(&repo, "non-existent"),
        Err(RevsetError::NoSuchRevision("non-existent".to_string()))
    );

    // Full ref
    repo.view.insert_git_ref("refs/heads/branch".to_string(), commit4.id.clone());
    assert_eq!(resolve_symbol(&repo, "refs/heads/branch").unwrap(), commit4);

    // Qualified with only heads/
    repo.view.insert_git_ref("refs/heads/branch".to_string(), commit5.id.clone());
    repo.view.insert_git_ref("refs/tags/branch".to_string(), commit4.id.clone());
    assert_eq!(resolve_symbol(&repo, "heads/branch").unwrap(), commit5);

    // Unqualified branch name
    repo.view.insert_git_ref("refs/heads/branch".to_string(), commit3.id.clone());
    repo.view.insert_git_ref("refs/tags/branch".to_string(), commit4.id.clone());
    assert_eq!(resolve_symbol(&repo, "branch").unwrap(), commit3);

    // Unqualified tag name
    repo.view.insert_git_ref("refs/tags/tag".to_string(), commit4.id.clone());
    assert_eq!(resolve_symbol(&repo, "tag").unwrap(), commit4);

    // Unqualified remote-tracking branch name
    repo.view.insert_git_ref(
        "refs/remotes/origin/remote-branch".to_string(),
        commit2.id.clone(),
    );
    assert_eq!(
        resolve_symbol(&repo, "origin/remote-branch").unwrap(),
        commit2
    );

    // Cannot shadow checkout ("@") or root symbols
    repo.view.insert_git_ref("@".to_string(), commit2.id.clone());
    repo.view.insert_git_ref("root".to_string(), commit3.id.clone());
    assert_eq!(resolve_symbol(&repo, "@").unwrap().id, repo.view.checkout);
    assert_eq!(
        resolve_symbol(&repo, "root").unwrap(),
        Commit::new(id(ROOT_HEX), Vec::new())
    );
}

#[test]
fn test_parse_revset() {
    assert_eq!(parse("@"), Ok(RevsetExpression::Symbol("@".to_string())));
    assert_eq!(parse("foo"), Ok(RevsetExpression::Symbol("foo".to_string())));
    assert_eq!(
        parse(":@"),
        Ok(RevsetExpression::Parents(Box::new(RevsetExpression::Symbol(
            "@".to_string()
        ))))
    );
    assert_eq!(
        parse("*:@"),
        Ok(RevsetExpression::Ancestors(Box::new(RevsetExpression::Symbol(
            "@".to_string()
        ))))
    );
}

#[test]
fn test_parse_revset_errors() {
    assert_eq!(
        parse(""),
        Err(RevsetParseError::SyntaxError("".to_string()))
    );
    assert_eq!(
        parse(":"),
        Err(RevsetParseError::SyntaxError(":".to_string()))
    );
    assert_eq!(
        parse("*:"),
        Err(RevsetParseError::SyntaxError("*:".to_string()))
    );
    assert_eq!(
        parse("a b"),
        Err(RevsetParseError::SyntaxError("a b".to_string()))
    );
    assert_eq!(
        parse("a*b"),
        Err(RevsetParseError::SyntaxError("a*b".to_string()))
    );
}

#[test]
fn test_evaluate_expression_root_and_checkout() {
    // A repository with only the root commit: evaluating "root" yields it.
    let root = id(ROOT_HEX);
    let store = Store::init(root.clone());
    let view = RepoView::new(root.clone());
    let repo = ReadonlyRepo::init(store, view);
    assert_eq!(resolve_commit_ids(&repo, "root"), vec![root.clone()]);
    // With a single commit, even the empty prefix is unambiguous.
    assert_eq!(
        resolve_symbol(&repo, "").unwrap(),
        Commit::new(root.clone(), Vec::new())
    );

    // Can find the current checkout.
    let mut store = Store::init(root.clone());
    let commit1 = Commit::new(id("cafe111111111111111111111111111111111111"), vec![root.clone()]);
    store.add_commit(commit1.clone());
    let view = RepoView::new(commit1.id.clone());
    let repo = ReadonlyRepo::init(store, view);
    assert_eq!(resolve_commit_ids(&repo, "@"), vec![commit1.id.clone()]);
}

#[test]
fn test_evaluate_expression_parents() {
    let root = id(ROOT_HEX);
    let mut store = Store::init(root.clone());
    let commit1 = Commit::new(id("1111111111111111111111111111111111111111"), vec![root.clone()]);
    let commit2 = Commit::new(
        id("2222222222222222222222222222222222222222"),
        vec![commit1.id.clone()],
    );
    let commit3 = Commit::new(id("3333333333333333333333333333333333333333"), vec![root.clone()]);
    let commit4 = Commit::new(
        id("4444444444444444444444444444444444444444"),
        vec![commit2.id.clone(), commit3.id.clone()],
    );
    store.add_commit(commit1.clone());
    store.add_commit(commit2.clone());
    store.add_commit(commit3.clone());
    store.add_commit(commit4.clone());
    let view = RepoView::new(commit2.id.clone());
    let repo = ReadonlyRepo::init(store, view);

    // The root commit has no parents
    assert_eq!(resolve_commit_ids(&repo, ":root"), vec![]);

    // Can find parents of the current checkout
    assert_eq!(resolve_commit_ids(&repo, ":@"), vec![commit1.id.clone()]);

    // Can find parents of a merge commit, in reverse authorship order
    assert_eq!(
        resolve_commit_ids(&repo, &format!(":{}", commit4.id.hex())),
        vec![commit3.id.clone(), commit2.id.clone()]
    );
}

#[test]
fn test_evaluate_expression_parents_no_dedup() {
    // Parents shared across elements of the inner result are repeated:
    // `Parents` deduplicates nothing.
    let root = id(ROOT_HEX);
    let mut store = Store::init(root.clone());
    let commit1 = Commit::new(id("1111111111111111111111111111111111111111"), vec![root.clone()]);
    let commit2 = Commit::new(id("2222222222222222222222222222222222222222"), vec![root.clone()]);
    let commit3 = Commit::new(
        id("3333333333333333333333333333333333333333"),
        vec![commit1.id.clone(), commit2.id.clone()],
    );
    store.add_commit(commit1.clone());
    store.add_commit(commit2.clone());
    store.add_commit(commit3.clone());
    let view = RepoView::new(commit3.id.clone());
    let repo = ReadonlyRepo::init(store, view);

    // Parents of [commit2, commit1] are [root, root].
    assert_eq!(
        resolve_commit_ids(&repo, "::@"),
        vec![root.clone(), root.clone()]
    );
}

#[test]
fn test_evaluate_expression_ancestors() {
    let root = id(ROOT_HEX);
    let mut store = Store::init(root.clone());
    let commit1 = Commit::new(id("1111111111111111111111111111111111111111"), vec![root.clone()]);
    let commit2 = Commit::new(
        id("2222222222222222222222222222222222222222"),
        vec![commit1.id.clone()],
    );
    let commit3 = Commit::new(
        id("3333333333333333333333333333333333333333"),
        vec![commit2.id.clone()],
    );
    let commit4 = Commit::new(
        id("4444444444444444444444444444444444444444"),
        vec![commit1.id.clone(), commit3.id.clone()],
    );
    store.add_commit(commit1.clone());
    store.add_commit(commit2.clone());
    store.add_commit(commit3.clone());
    store.add_commit(commit4.clone());
    let view = RepoView::new(commit1.id.clone());
    let repo = ReadonlyRepo::init(store, view);

    // The ancestors of the root commit is just the root commit itself
    assert_eq!(resolve_commit_ids(&repo, "*:root"), vec![root.clone()]);

    // Can find ancestors of a specific commit. Commits reachable via multiple
    // paths are not repeated.
    assert_eq!(
        resolve_commit_ids(&repo, &format!("*:{}", commit4.id.hex())),
        vec![
            commit4.id.clone(),
            commit3.id.clone(),
            commit2.id.clone(),
            commit1.id.clone(),
            root.clone(),
        ]
    );
}

#[test]
fn test_commit_id_hex_round_trip() {
    let cid = id("0454de3cae04c46cda37ba2e8873b4c17ff51dcb");
    assert_eq!(cid.hex(), "0454de3cae04c46cda37ba2e8873b4c17ff51dcb");
    assert_eq!(CommitId::new(vec![0x04, 0x54]).hex(), "0454");
    // Odd length, uppercase and non-hex strings are refused.
    assert_eq!(CommitId::from_hex("046"), None);
    assert_eq!(CommitId::from_hex("ABCD"), None);
    assert_eq!(CommitId::from_hex("zz"), None);
}
