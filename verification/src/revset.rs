//! The revset language: parsing, symbol resolution and evaluation.
//!
//! A revset expression names a set of commits. The parser turns a query
//! string into an expression tree; the resolver turns a leaf symbol into a
//! commit under a strict precedence order; the evaluator interprets the tree
//! against one repository snapshot into a deterministic ordered sequence of
//! commit ids.

use vstd::prelude::*;
use vstd::string::StrSliceExecFns;
use vstd::string::StringExecFns;

use crate::hex::{hex_of, is_hex_char};
use crate::repo::{ReadonlyRepo, RepoModel};
use crate::store::{Commit, CommitId, PrefixResolution};

verus! {

/// A revset expression tree: a closed tagged-variant type, built once per
/// query, immutable, and consumed by evaluation.
#[derive(Debug, PartialEq, Eq)]
pub enum RevsetExpression {
    /// A leaf name: a reserved token, a hex id prefix, or a ref name.
    Symbol(String),
    /// The parents of each commit the inner expression names.
    Parents(Box<RevsetExpression>),
    /// Everything reachable from the commits the inner expression names.
    Ancestors(Box<RevsetExpression>),
}

/// Spec-level mirror of an expression tree, over character sequences.
pub enum ExprModel {
    Symbol(Seq<char>),
    Parents(Box<ExprModel>),
    Ancestors(Box<ExprModel>),
}

/// The spec-level mirror of an expression tree.
pub open spec fn expr_model(e: RevsetExpression) -> ExprModel
    decreases e,
{
    match e {
        RevsetExpression::Symbol(s) => ExprModel::Symbol(s@),
        RevsetExpression::Parents(b) => ExprModel::Parents(Box::new(expr_model(*b))),
        RevsetExpression::Ancestors(b) => ExprModel::Ancestors(Box::new(expr_model(*b))),
    }
}

impl View for RevsetExpression {
    type V = ExprModel;

    open spec fn view(&self) -> ExprModel {
        expr_model(*self)
    }
}

/// Malformed query text: empty input, a dangling operator, or a symbol with
/// reserved characters. Carries the offending text.
#[derive(Debug, PartialEq, Eq)]
pub enum RevsetParseError {
    SyntaxError(String),
}

/// A resolution failure: the token matched no rule, or a hex prefix matched
/// two or more commit ids. Carries the offending token.
#[derive(Debug, PartialEq, Eq)]
pub enum RevsetError {
    NoSuchRevision(String),
    AmbiguousCommitIdPrefix(String),
}

/// The characters reserved for operators.
pub open spec fn is_operator_char(c: char) -> bool {
    c == ':' || c == '*'
}

/// Whitespace, which no token may contain.
pub open spec fn is_space_char(c: char) -> bool {
    c == ' ' || c == '\t' || c == '\n' || c == '\r'
}

/// A symbol token: nonempty, free of whitespace and of operator characters.
pub open spec fn is_symbol_str(s: Seq<char>) -> bool {
    s.len() > 0 && forall|i: int| 0 <= i < s.len() ==>
        !is_operator_char(#[trigger] s[i]) && !is_space_char(s[i])
}

/// What a query string parses to: `*:` and `:` are prefix operators, and
/// whatever remains must be one symbol token.
pub open spec fn spec_parse(s: Seq<char>) -> Option<ExprModel>
    decreases s.len(),
{
    if s.len() >= 2 && s[0] == '*' && s[1] == ':' {
        match spec_parse(s.skip(2)) {
            Some(e) => Some(ExprModel::Ancestors(Box::new(e))),
            None => None,
        }
    } else if s.len() >= 1 && s[0] == ':' {
        match spec_parse(s.skip(1)) {
            Some(e) => Some(ExprModel::Parents(Box::new(e))),
            None => None,
        }
    } else if is_symbol_str(s) {
        Some(ExprModel::Symbol(s))
    } else {
        None
    }
}

/// Parses a revset query string into an expression tree. Purely syntactic:
/// no repository access, and symbol tokens are not validated semantically.
/// Fails exactly on the strings that `spec_parse` rejects, and the error
/// carries the query text itself.
pub fn parse(revset_str: &str) -> (r: Result<RevsetExpression, RevsetParseError>)
    ensures
        match spec_parse(revset_str@) {
            Some(m) => r matches Ok(e) && e@ == m,
            None => r matches Err(RevsetParseError::SyntaxError(t)) && t@ == revset_str@,
        },
    decreases revset_str@.len(),
{
    let n = revset_str.unicode_len();
    if n >= 2 && revset_str.get_char(0) == '*' && revset_str.get_char(1) == ':' {
        let rest = revset_str.substring_char(2, n);
        proof {
            assert(rest@ =~= revset_str@.skip(2));
        }
        match parse(rest) {
            Ok(e) => Ok(RevsetExpression::Ancestors(Box::new(e))),
            Err(_) => Err(RevsetParseError::SyntaxError(String::from_str(revset_str))),
        }
    } else if n >= 1 && revset_str.get_char(0) == ':' {
        let rest = revset_str.substring_char(1, n);
        proof {
            assert(rest@ =~= revset_str@.skip(1));
        }
        match parse(rest) {
            Ok(e) => Ok(RevsetExpression::Parents(Box::new(e))),
            Err(_) => Err(RevsetParseError::SyntaxError(String::from_str(revset_str))),
        }
    } else {
        if n == 0 {
            return Err(RevsetParseError::SyntaxError(String::from_str(revset_str)));
        }
        let mut i: usize = 0;
        while i < n
            invariant
                i <= n,
                n == revset_str@.len(),
                1 <= n,
                revset_str@[0] != ':',
                !(n >= 2 && revset_str@[0] == '*' && revset_str@[1] == ':'),
                forall|j: int| 0 <= j < i ==> !is_operator_char(#[trigger] revset_str@[j])
                    && !is_space_char(revset_str@[j]),
            decreases n - i,
        {
            let c = revset_str.get_char(i);
            if c == ':' || c == '*' || c == ' ' || c == '\t' || c == '\n' || c == '\r' {
                return Err(RevsetParseError::SyntaxError(String::from_str(revset_str)));
            }
            i = i + 1;
        }
        Ok(RevsetExpression::Symbol(String::from_str(revset_str)))
    }
}

// ---------------------------------------------------------------------------
// Symbol resolution
// ---------------------------------------------------------------------------

/// The reserved token naming the current checkout.
pub open spec fn checkout_symbol() -> Seq<char> {
    seq!['@']
}

/// The reserved token naming the root commit.
pub open spec fn root_symbol() -> Seq<char> {
    seq!['r', 'o', 'o', 't']
}

/// The namespace prefix of fully-qualified ref names.
pub open spec fn refs_prefix() -> Seq<char> {
    seq!['r', 'e', 'f', 's', '/']
}

/// The branch namespace, without the leading `refs/`.
pub open spec fn heads_prefix() -> Seq<char> {
    seq!['h', 'e', 'a', 'd', 's', '/']
}

/// The tag namespace, without the leading `refs/`.
pub open spec fn tags_prefix() -> Seq<char> {
    seq!['t', 'a', 'g', 's', '/']
}

/// The fully-qualified branch namespace.
pub open spec fn refs_heads_prefix() -> Seq<char> {
    refs_prefix() + heads_prefix()
}

/// The fully-qualified tag namespace.
pub open spec fn refs_tags_prefix() -> Seq<char> {
    refs_prefix() + tags_prefix()
}

/// The fully-qualified remote-tracking namespace.
pub open spec fn refs_remotes_prefix() -> Seq<char> {
    refs_prefix() + seq!['r', 'e', 'm', 'o', 't', 'e', 's', '/']
}

/// A token of hex digits alone; the empty token qualifies.
pub open spec fn is_hex_symbol(s: Seq<char>) -> bool {
    forall|i: int| 0 <= i < s.len() ==> is_hex_char(#[trigger] s[i])
}

/// Whether the stored commit `id` has `sym` as a prefix of its hex form.
pub open spec fn matches_prefix(m: RepoModel, sym: Seq<char>, id: Seq<u8>) -> bool {
    m.commits.contains_key(id) && sym.is_prefix_of(hex_of(id))
}

/// Exactly one stored commit has `sym` as a hex prefix.
pub open spec fn unique_prefix_match(m: RepoModel, sym: Seq<char>) -> bool {
    exists|id: Seq<u8>| #[trigger] matches_prefix(m, sym, id)
        && forall|id2: Seq<u8>| #[trigger] matches_prefix(m, sym, id2) ==> id2 == id
}

/// The one commit id that `sym` is a hex prefix of.
pub open spec fn the_prefix_match(m: RepoModel, sym: Seq<char>) -> Seq<u8> {
    choose|id: Seq<u8>| #[trigger] matches_prefix(m, sym, id)
        && forall|id2: Seq<u8>| #[trigger] matches_prefix(m, sym, id2) ==> id2 == id
}

/// Two or more stored commits have `sym` as a hex prefix.
pub open spec fn ambiguous_prefix_match(m: RepoModel, sym: Seq<char>) -> bool {
    exists|a: Seq<u8>, b: Seq<u8>| #[trigger] matches_prefix(m, sym, a)
        && #[trigger] matches_prefix(m, sym, b) && a != b
}

/// Ref-table resolution, tried in order, first hit wins: an exact
/// fully-qualified name; a name under `heads/` or `tags/` completed with
/// `refs/`; a bare name under `refs/heads/`, then `refs/tags/`; and a
/// `<remote>/<branch>` pair under `refs/remotes/`.
pub open spec fn spec_resolve_ref(m: RepoModel, sym: Seq<char>) -> Option<Seq<u8>> {
    if refs_prefix().is_prefix_of(sym) && m.refs.contains_key(sym) {
        Some(m.refs[sym])
    } else if heads_prefix().is_prefix_of(sym) && m.refs.contains_key(refs_prefix() + sym) {
        Some(m.refs[refs_prefix() + sym])
    } else if tags_prefix().is_prefix_of(sym) && m.refs.contains_key(refs_prefix() + sym) {
        Some(m.refs[refs_prefix() + sym])
    } else if m.refs.contains_key(refs_heads_prefix() + sym) {
        Some(m.refs[refs_heads_prefix() + sym])
    } else if m.refs.contains_key(refs_tags_prefix() + sym) {
        Some(m.refs[refs_tags_prefix() + sym])
    } else if sym.contains('/') && m.refs.contains_key(refs_remotes_prefix() + sym) {
        Some(m.refs[refs_remotes_prefix() + sym])
    } else {
        None
    }
}

/// How a symbol resolves against a snapshot.
pub enum SymbolResolution {
    Found(Seq<u8>),
    NotFound,
    Ambiguous,
}

/// What a symbol resolves to: `@` is the checkout and `root` the root
/// commit, both absolute, even over refs of those literal names; a token of
/// hex digits is first a commit-id prefix, uniqueness required, and only a
/// prefix matching nothing falls through to the ref table.
pub open spec fn spec_resolve(m: RepoModel, sym: Seq<char>) -> SymbolResolution {
    if sym == checkout_symbol() {
        SymbolResolution::Found(m.checkout)
    } else if sym == root_symbol() {
        SymbolResolution::Found(m.root)
    } else if is_hex_symbol(sym) && unique_prefix_match(m, sym) {
        SymbolResolution::Found(the_prefix_match(m, sym))
    } else if is_hex_symbol(sym) && ambiguous_prefix_match(m, sym) {
        SymbolResolution::Ambiguous
    } else {
        match spec_resolve_ref(m, sym) {
            Some(id) => SymbolResolution::Found(id),
            None => SymbolResolution::NotFound,
        }
    }
}

/// Whether `p` is a prefix of `s`, character for character.
fn str_starts_with(s: &str, p: &str) -> (r: bool)
    ensures
        r == p@.is_prefix_of(s@),
{
    let np = p.unicode_len();
    let ns = s.unicode_len();
    if np > ns {
        return false;
    }
    let mut i: usize = 0;
    while i < np
        invariant
            i <= np,
            np == p@.len(),
            ns == s@.len(),
            np <= ns,
            forall|j: int| 0 <= j < i ==> p@[j] == s@[j],
        decreases np - i,
    {
        if s.get_char(i) != p.get_char(i) {
            return false;
        }
        i = i + 1;
    }
    proof {
        assert(p@ =~= s@.take(np as int));
    }
    true
}

/// Whether the token holds a `/`, the shape of a `<remote>/<branch>` pair.
fn str_contains_slash(s: &str) -> (r: bool)
    ensures
        r == s@.contains('/'),
{
    let n = s.unicode_len();
    let mut i: usize = 0;
    while i < n
        invariant
            i <= n,
            n == s@.len(),
            forall|j: int| 0 <= j < i ==> s@[j] != '/',
        decreases n - i,
    {
        if s.get_char(i) == '/' {
            return true;
        }
        i = i + 1;
    }
    false
}

/// Ref-table resolution of `symbol`, as `spec_resolve_ref` lays it out.
fn resolve_git_ref(repo: &ReadonlyRepo, symbol: &str) -> (r: Option<CommitId>)
    requires
        repo.wf(),
    ensures
        match spec_resolve_ref(repo.model(), symbol@) {
            Some(id) => r matches Some(cid) && cid@ == id,
            None => r is None,
        },
{
    proof {
        reveal_strlit("refs/");
        reveal_strlit("heads/");
        reveal_strlit("tags/");
        reveal_strlit("refs/heads/");
        reveal_strlit("refs/tags/");
        reveal_strlit("refs/remotes/");
        assert("refs/"@ =~= refs_prefix());
        assert("heads/"@ =~= heads_prefix());
        assert("tags/"@ =~= tags_prefix());
        assert("refs/heads/"@ =~= refs_heads_prefix());
        assert("refs/tags/"@ =~= refs_tags_prefix());
        assert("refs/remotes/"@ =~= refs_remotes_prefix());
    }
    if str_starts_with(symbol, "refs/") {
        let q = String::from_str(symbol);
        match repo.view.get_git_ref(&q) {
            Some(t) => {
                return Some(t.clone());
            },
            None => {},
        }
    }
    if str_starts_with(symbol, "heads/") {
        let mut q = String::from_str("refs/");
        q.append(symbol);
        proof {
            assert(q@ == refs_prefix() + symbol@);
        }
        match repo.view.get_git_ref(&q) {
            Some(t) => {
                return Some(t.clone());
            },
            None => {},
        }
    }
    if str_starts_with(symbol, "tags/") {
        let mut q = String::from_str("refs/");
        q.append(symbol);
        match repo.view.get_git_ref(&q) {
            Some(t) => {
                return Some(t.clone());
            },
            None => {},
        }
    }
    let mut q = String::from_str("refs/heads/");
    q.append(symbol);
    match repo.view.get_git_ref(&q) {
        Some(t) => {
            return Some(t.clone());
        },
        None => {},
    }
    let mut q = String::from_str("refs/tags/");
    q.append(symbol);
    match repo.view.get_git_ref(&q) {
        Some(t) => {
            return Some(t.clone());
        },
        None => {},
    }
    if str_contains_slash(symbol) {
        let mut q = String::from_str("refs/remotes/");
        q.append(symbol);
        match repo.view.get_git_ref(&q) {
            Some(t) => {
                return Some(t.clone());
            },
            None => {},
        }
    }
    None
}

/// Resolves one symbol to a commit of the snapshot, in strict precedence
/// order: the reserved `@` and `root`, then a hex commit-id prefix, then the
/// ref table. Fails with `AmbiguousCommitIdPrefix` where a hex token matches
/// two or more ids, and with `NoSuchRevision` where no rule matches; both
/// errors carry the symbol. A pure read: the snapshot is never changed.
#[verifier::rlimit(50)]
pub fn resolve_symbol(repo: &ReadonlyRepo, symbol: &str) -> (r: Result<Commit, RevsetError>)
    requires
        repo.wf(),
    ensures
        match spec_resolve(repo.model(), symbol@) {
            SymbolResolution::Found(id) => r matches Ok(c) && c.id@ == id
                && repo.model().commits.contains_key(id)
                && c.parent_ids.deep_view() == repo.model().commits[id],
            SymbolResolution::NotFound => r matches Err(RevsetError::NoSuchRevision(t))
                && t@ == symbol@,
            SymbolResolution::Ambiguous =>
                r matches Err(RevsetError::AmbiguousCommitIdPrefix(t)) && t@ == symbol@,
        },
{
    let ghost m = repo.model();
    let n = symbol.unicode_len();
    if n == 1 && symbol.get_char(0) == '@' {
        proof {
            assert(symbol@ =~= checkout_symbol());
        }
        let c = repo.store.get_commit(&repo.view.checkout).unwrap();
        return Ok(c.clone());
    }
    proof {
        if symbol@ == checkout_symbol() {
            assert(symbol@.len() == 1 && symbol@[0] == '@');
        }
    }
    if n == 4 && symbol.get_char(0) == 'r' && symbol.get_char(1) == 'o'
        && symbol.get_char(2) == 'o' && symbol.get_char(3) == 't' {
        proof {
            assert(symbol@ =~= root_symbol());
        }
        let c = repo.store.root_commit();
        proof {
            assert(m.commits.contains_key(m.root));
        }
        return Ok(c.clone());
    }
    proof {
        if symbol@ == root_symbol() {
            assert(symbol@.len() == 4 && symbol@[0] == 'r' && symbol@[1] == 'o'
                && symbol@[2] == 'o' && symbol@[3] == 't');
        }
    }
    let mut sym_chars: Vec<char> = Vec::new();
    let mut all_hex = true;
    let mut i: usize = 0;
    while i < n
        invariant
            i <= n,
            n == symbol@.len(),
            sym_chars@.len() == i,
            forall|j: int| 0 <= j < i ==> sym_chars@[j] == symbol@[j],
            all_hex == (forall|j: int| 0 <= j < i ==> is_hex_char(#[trigger] symbol@[j])),
        decreases n - i,
    {
        let c = symbol.get_char(i);
        sym_chars.push(c);
        if all_hex {
            match crate::hex::hex_value_of(c) {
                Some(_) => {},
                None => {
                    all_hex = false;
                },
            }
        } else {
            proof {
                let ghost w = choose|j: int| 0 <= j < i && !is_hex_char(#[trigger] symbol@[j]);
                assert(0 <= w < i + 1 && !is_hex_char(symbol@[w]));
            }
        }
        i = i + 1;
    }
    proof {
        assert(sym_chars@ =~= symbol@);
    }
    if all_hex {
        proof {
            assert(is_hex_symbol(symbol@));
        }
        match repo.store.resolve_id_prefix(&sym_chars) {
            PrefixResolution::SingleMatch(cid) => {
                proof {
                    assert(m.commits.contains_key(cid@) <==> repo.store.contains_id(cid@));
                    assert(matches_prefix(m, symbol@, cid@));
                    assert forall|id2: Seq<u8>| #[trigger] matches_prefix(m, symbol@, id2)
                        implies id2 == cid@ by {
                        assert(repo.store.contains_id(id2));
                        let k = choose|k: int| 0 <= k < repo.store.commits@.len()
                            && (#[trigger] repo.store.commits@[k].id@) == id2;
                        assert(symbol@.is_prefix_of(hex_of(repo.store.commits@[k].id@)));
                    }
                    assert(unique_prefix_match(m, symbol@));
                    assert(the_prefix_match(m, symbol@) == cid@) by {
                        let idc = the_prefix_match(m, symbol@);
                        assert(matches_prefix(m, symbol@, idc)
                            && forall|id2: Seq<u8>| #[trigger] matches_prefix(m, symbol@, id2)
                                ==> id2 == idc);
                    }
                }
                let c = repo.store.get_commit(&cid).unwrap();
                return Ok(c.clone());
            },
            PrefixResolution::AmbiguousMatch => {
                proof {
                    let (a, b) = choose|a: int, b: int|
                        0 <= a < b < repo.store.commits@.len()
                            && symbol@.is_prefix_of(hex_of(
                                #[trigger] repo.store.commits@[a].id@))
                            && symbol@.is_prefix_of(hex_of(
                                #[trigger] repo.store.commits@[b].id@));
                    let ida = repo.store.commits@[a].id@;
                    let idb = repo.store.commits@[b].id@;
                    assert(repo.store.contains_id(ida));
                    assert(repo.store.contains_id(idb));
                    assert(matches_prefix(m, symbol@, ida));
                    assert(matches_prefix(m, symbol@, idb));
                    assert(ida != idb);
                    assert(ambiguous_prefix_match(m, symbol@));
                    if unique_prefix_match(m, symbol@) {
                        let id = choose|id: Seq<u8>| #[trigger] matches_prefix(m, symbol@, id)
                            && forall|id2: Seq<u8>| #[trigger] matches_prefix(m, symbol@, id2)
                                ==> id2 == id;
                        assert(ida == id);
                        assert(idb == id);
                    }
                }
                return Err(RevsetError::AmbiguousCommitIdPrefix(String::from_str(symbol)));
            },
            PrefixResolution::NoMatch => {
                proof {
                    assert forall|id2: Seq<u8>| !(#[trigger] matches_prefix(m, symbol@, id2))
                        by {
                        if m.commits.contains_key(id2) {
                            let k = choose|k: int| 0 <= k < repo.store.commits@.len()
                                && (#[trigger] repo.store.commits@[k].id@) == id2;
                            assert(!symbol@.is_prefix_of(hex_of(
                                repo.store.commits@[k].id@)));
                        }
                    }
                    assert(!unique_prefix_match(m, symbol@));
                    assert(!ambiguous_prefix_match(m, symbol@));
                }
            },
        }
    } else {
        proof {
            let w = choose|j: int| 0 <= j < n && !is_hex_char(#[trigger] symbol@[j]);
            assert(!is_hex_symbol(symbol@));
        }
    }
    proof {
        repo.lemma_model_wf();
    }
    match resolve_git_ref(repo, symbol) {
        Some(cid) => {
            proof {
                assert(m.commits.contains_key(cid@)) by {
                    assert(m.wf());
                    assert(spec_resolve_ref(m, symbol@) matches Some(id) && id == cid@);
                }
            }
            let c = repo.store.get_commit(&cid).unwrap();
            Ok(c.clone())
        },
        None => Err(RevsetError::NoSuchRevision(String::from_str(symbol))),
    }
}

// ---------------------------------------------------------------------------
// Evaluation
// ---------------------------------------------------------------------------

/// The outcome of evaluating an expression: an ordered sequence of commit
/// ids, or the resolution failure of the leaf symbol that aborted it.
pub enum EvalModel {
    Ids(Seq<Seq<u8>>),
    NoSuch(Seq<char>),
    Ambiguous(Seq<char>),
}

/// The parents of every commit of `ids`, in `ids` order, each commit's
/// parents in reverse authorship order; no deduplication.
pub open spec fn rev_parents_all(m: RepoModel, ids: Seq<Seq<u8>>) -> Seq<Seq<u8>>
    decreases ids.len(),
{
    if ids.len() == 0 {
        Seq::empty()
    } else {
        m.commits[ids[0]].reverse() + rev_parents_all(m, ids.skip(1))
    }
}

/// One depth-first walk over the ancestry graph: commits are taken from the
/// front of `stack`, emitted the first time they are reached, and their
/// parents pushed in reverse authorship order; a single visited set spans
/// the whole walk, across all roots.
pub open spec fn dfs_walk(m: RepoModel, stack: Seq<Seq<u8>>, visited: Set<Seq<u8>>) -> Seq<Seq<u8>>
    decreases m.commits.dom().difference(visited).len(), stack.len(),
        via dfs_walk_decreases
{
    if stack.len() == 0 {
        Seq::empty()
    } else {
        let c = stack[0];
        if !m.commits.dom().finite() || visited.contains(c) || !m.commits.contains_key(c) {
            dfs_walk(m, stack.skip(1), visited)
        } else {
            seq![c] + dfs_walk(m, m.commits[c].reverse() + stack.skip(1), visited.insert(c))
        }
    }
}

#[via_fn]
proof fn dfs_walk_decreases(m: RepoModel, stack: Seq<Seq<u8>>, visited: Set<Seq<u8>>) {
    broadcast use vstd::set::group_set_axioms;

    if stack.len() > 0 {
        let c = stack[0];
        if m.commits.dom().finite() && !visited.contains(c) && m.commits.contains_key(c) {
            let d = m.commits.dom().difference(visited);
            assert(d.finite());
            assert(d.contains(c));
            assert(m.commits.dom().difference(visited.insert(c)) =~= d.remove(c));
            assert(d.remove(c).len() < d.len());
        }
    }
}

/// What an expression evaluates to against a snapshot: a symbol is the
/// one-element sequence of what it resolves to, `Parents` maps the inner
/// result through `rev_parents_all`, `Ancestors` through `dfs_walk` with an
/// initially empty visited set; any resolver failure aborts the whole
/// evaluation unchanged.
pub open spec fn spec_evaluate(m: RepoModel, e: ExprModel) -> EvalModel
    decreases e,
{
    match e {
        ExprModel::Symbol(s) => match spec_resolve(m, s) {
            SymbolResolution::Found(id) => EvalModel::Ids(seq![id]),
            SymbolResolution::NotFound => EvalModel::NoSuch(s),
            SymbolResolution::Ambiguous => EvalModel::Ambiguous(s),
        },
        ExprModel::Parents(b) => match spec_evaluate(m, *b) {
            EvalModel::Ids(ids) => EvalModel::Ids(rev_parents_all(m, ids)),
            EvalModel::NoSuch(s) => EvalModel::NoSuch(s),
            EvalModel::Ambiguous(s) => EvalModel::Ambiguous(s),
        },
        ExprModel::Ancestors(b) => match spec_evaluate(m, *b) {
            EvalModel::Ids(ids) => EvalModel::Ids(dfs_walk(m, ids, Set::empty())),
            EvalModel::NoSuch(s) => EvalModel::NoSuch(s),
            EvalModel::Ambiguous(s) => EvalModel::Ambiguous(s),
        },
    }
}

/// In a well-formed snapshot, `rev_parents_all` yields stored commits only.
proof fn lemma_rev_parents_in_dom(m: RepoModel, ids: Seq<Seq<u8>>)
    requires
        m.wf(),
        forall|k: int| 0 <= k < ids.len() ==> m.commits.contains_key(#[trigger] ids[k]),
    ensures
        forall|k: int| 0 <= k < rev_parents_all(m, ids).len() ==>
            m.commits.contains_key(#[trigger] rev_parents_all(m, ids)[k]),
    decreases ids.len(),
{
    if ids.len() > 0 {
        lemma_rev_parents_in_dom(m, ids.skip(1));
        let ps = m.commits[ids[0]].reverse();
        assert forall|k: int| 0 <= k < rev_parents_all(m, ids).len() implies
            m.commits.contains_key(#[trigger] rev_parents_all(m, ids)[k]) by {
            if k < ps.len() {
                let j = ps.len() - 1 - k;
                assert(ps[k] == m.commits[ids[0]][j]);
                assert(m.commits.contains_key(m.commits[ids[0]][j]));
            } else {
                assert(rev_parents_all(m, ids)[k]
                    == rev_parents_all(m, ids.skip(1))[k - ps.len()]);
            }
        }
    }
}

/// In a well-formed snapshot, `dfs_walk` yields stored commits only.
proof fn lemma_dfs_walk_in_dom(m: RepoModel, stack: Seq<Seq<u8>>, visited: Set<Seq<u8>>)
    ensures
        forall|k: int| 0 <= k < dfs_walk(m, stack, visited).len() ==>
            m.commits.contains_key(#[trigger] dfs_walk(m, stack, visited)[k]),
    decreases m.commits.dom().difference(visited).len(), stack.len(),
{
    broadcast use vstd::set::group_set_axioms;

    if stack.len() == 0 {
        assert(dfs_walk(m, stack, visited) =~= Seq::<Seq<u8>>::empty());
    } else {
        let c = stack[0];
        if !m.commits.dom().finite() || visited.contains(c) || !m.commits.contains_key(c) {
            lemma_dfs_walk_in_dom(m, stack.skip(1), visited);
            let rec = dfs_walk(m, stack.skip(1), visited);
            assert forall|k: int| 0 <= k < dfs_walk(m, stack, visited).len() implies
                m.commits.contains_key(#[trigger] dfs_walk(m, stack, visited)[k]) by {
                assert(dfs_walk(m, stack, visited)[k] == rec[k]);
                assert(m.commits.contains_key(rec[k]));
            }
        } else {
            let d = m.commits.dom().difference(visited);
            assert(m.commits.dom().difference(visited.insert(c)) =~= d.remove(c));
            assert(d.remove(c).len() < d.len());
            lemma_dfs_walk_in_dom(m, m.commits[c].reverse() + stack.skip(1),
                visited.insert(c));
            let rec = dfs_walk(m, m.commits[c].reverse() + stack.skip(1),
                visited.insert(c));
            assert forall|k: int| 0 <= k < dfs_walk(m, stack, visited).len() implies
                m.commits.contains_key(#[trigger] dfs_walk(m, stack, visited)[k]) by {
                if k > 0 {
                    assert(dfs_walk(m, stack, visited)[k] == rec[k - 1]);
                }
            }
        }
    }
}

/// Every id the whole evaluation yields names a stored commit.
pub proof fn lemma_eval_ids_in_dom(m: RepoModel, e: ExprModel)
    requires
        m.wf(),
    ensures
        match spec_evaluate(m, e) {
            EvalModel::Ids(ids) => forall|k: int| 0 <= k < ids.len() ==>
                m.commits.contains_key(#[trigger] ids[k]),
            _ => true,
        },
    decreases e,
{
    match e {
        ExprModel::Symbol(s) => {
            match spec_resolve(m, s) {
                SymbolResolution::Found(id) => {
                    if s != checkout_symbol() && s != root_symbol()
                        && is_hex_symbol(s) && unique_prefix_match(m, s) {
                        assert(matches_prefix(m, s, the_prefix_match(m, s)));
                    }
                },
                _ => {},
            }
        },
        ExprModel::Parents(b) => {
            lemma_eval_ids_in_dom(m, *b);
            match spec_evaluate(m, *b) {
                EvalModel::Ids(ids) => {
                    lemma_rev_parents_in_dom(m, ids);
                },
                _ => {},
            }
        },
        ExprModel::Ancestors(b) => {
            lemma_eval_ids_in_dom(m, *b);
            match spec_evaluate(m, *b) {
                EvalModel::Ids(ids) => {
                    lemma_dfs_walk_in_dom(m, ids, Set::empty());
                },
                _ => {},
            }
        },
    }
}

// ---------------------------------------------------------------------------
// Laws of resolution and evaluation
// ---------------------------------------------------------------------------

/// `root` always resolves to the store's root commit, whatever the ref
/// table holds — even a ref literally named `root` is never honored.
pub proof fn lemma_resolve_root(m: RepoModel)
    ensures
        spec_resolve(m, root_symbol()) == SymbolResolution::Found(m.root),
{
    assert(root_symbol().len() == 4 && checkout_symbol().len() == 1);
}

/// `@` always resolves to the commit at the checkout, whatever the ref
/// table holds — even a ref literally named `@` is never honored.
pub proof fn lemma_resolve_checkout(m: RepoModel)
    ensures
        spec_resolve(m, checkout_symbol()) == SymbolResolution::Found(m.checkout),
{
}

/// A hex token prefixing exactly one stored commit id resolves to that
/// commit; one prefixing two or more fails as ambiguous; one prefixing none
/// falls through to ref resolution.
pub proof fn lemma_resolve_hex_prefix(m: RepoModel, sym: Seq<char>)
    requires
        is_hex_symbol(sym),
    ensures
        unique_prefix_match(m, sym) ==> spec_resolve(m, sym)
            == SymbolResolution::Found(the_prefix_match(m, sym))
            && matches_prefix(m, sym, the_prefix_match(m, sym)),
        ambiguous_prefix_match(m, sym) ==> spec_resolve(m, sym)
            == SymbolResolution::Ambiguous,
        !unique_prefix_match(m, sym) && !ambiguous_prefix_match(m, sym) ==>
            spec_resolve(m, sym) == (match spec_resolve_ref(m, sym) {
                Some(id) => SymbolResolution::Found(id),
                None => SymbolResolution::NotFound,
            }),
{
    if sym == checkout_symbol() {
        assert(is_hex_char(sym[0]));
        assert(sym[0] == '@');
        assert(false);
    }
    if sym == root_symbol() {
        assert(is_hex_char(sym[0]));
        assert(sym[0] == 'r');
        assert(false);
    }
    if ambiguous_prefix_match(m, sym) && unique_prefix_match(m, sym) {
        let id = choose|id: Seq<u8>| #[trigger] matches_prefix(m, sym, id)
            && forall|id2: Seq<u8>| #[trigger] matches_prefix(m, sym, id2) ==> id2 == id;
        let (a, b) = choose|a: Seq<u8>, b: Seq<u8>| #[trigger] matches_prefix(m, sym, a)
            && #[trigger] matches_prefix(m, sym, b) && a != b;
        assert(a == id);
        assert(b == id);
        assert(false);
    }
    if unique_prefix_match(m, sym) {
        let id = choose|id: Seq<u8>| #[trigger] matches_prefix(m, sym, id)
            && forall|id2: Seq<u8>| #[trigger] matches_prefix(m, sym, id2) ==> id2 == id;
        assert(matches_prefix(m, sym, the_prefix_match(m, sym)));
    }
}

/// The parents of the root commit form the empty sequence: evaluating
/// `Parents` over `root` yields nothing.
pub proof fn lemma_parents_of_root_empty(m: RepoModel)
    requires
        m.wf(),
    ensures
        spec_evaluate(m, ExprModel::Parents(Box::new(ExprModel::Symbol(root_symbol()))))
            == EvalModel::Ids(Seq::<Seq<u8>>::empty()),
{
    lemma_resolve_root(m);
    let ids = seq![m.root];
    assert(spec_evaluate(m, ExprModel::Symbol(root_symbol())) == EvalModel::Ids(ids));
    assert(m.commits[m.root].reverse().len() == 0);
    assert(ids.skip(1) =~= Seq::<Seq<u8>>::empty());
    assert(rev_parents_all(m, ids.skip(1)) =~= Seq::<Seq<u8>>::empty());
    assert(rev_parents_all(m, ids) =~= Seq::<Seq<u8>>::empty());
}

/// The parser's three canonical forms: a bare symbol, one `:` for parents,
/// and `*:` for ancestors. The parser is a function of the text alone, so
/// these pin its outcomes exactly.
pub proof fn lemma_parse_examples()
    ensures
        spec_parse(seq!['@']) == Some(ExprModel::Symbol(seq!['@'])),
        spec_parse(seq![':', '@'])
            == Some(ExprModel::Parents(Box::new(ExprModel::Symbol(seq!['@'])))),
        spec_parse(seq!['*', ':', '@'])
            == Some(ExprModel::Ancestors(Box::new(ExprModel::Symbol(seq!['@'])))),
{
    reveal_with_fuel(spec_parse, 3);
    assert(is_symbol_str(seq!['@']));
    assert(seq![':', '@'].skip(1) =~= seq!['@']);
    assert(seq!['*', ':', '@'].skip(2) =~= seq!['@']);
}

/// Every stored commit on the stack ends in the walk's output, unless it
/// was already visited.
proof fn lemma_dfs_walk_covers(m: RepoModel, stack: Seq<Seq<u8>>, visited: Set<Seq<u8>>)
    ensures
        forall|k: int| 0 <= k < stack.len() && m.commits.dom().finite()
            && m.commits.contains_key(#[trigger] stack[k]) ==>
            dfs_walk(m, stack, visited).contains(stack[k]) || visited.contains(stack[k]),
    decreases m.commits.dom().difference(visited).len(), stack.len(),
{
    broadcast use vstd::set::group_set_axioms;

    if stack.len() > 0 {
        let c = stack[0];
        let rest = stack.skip(1);
        let out = dfs_walk(m, stack, visited);
        if !m.commits.dom().finite() || visited.contains(c) || !m.commits.contains_key(c) {
            lemma_dfs_walk_covers(m, rest, visited);
            let w = dfs_walk(m, rest, visited);
            assert(out == w);
            assert forall|k: int| 0 <= k < stack.len() && m.commits.dom().finite()
                && m.commits.contains_key(#[trigger] stack[k]) implies
                out.contains(stack[k]) || visited.contains(stack[k]) by {
                if k == 0 {
                    assert(visited.contains(c));
                } else {
                    assert(stack[k] == rest[k - 1]);
                    assert(m.commits.contains_key(rest[k - 1]));
                    if w.contains(rest[k - 1]) {
                        assert(out.contains(stack[k]));
                    }
                }
            }
        } else {
            let d = m.commits.dom().difference(visited);
            assert(m.commits.dom().difference(visited.insert(c)) =~= d.remove(c));
            assert(d.remove(c).len() < d.len());
            let news = m.commits[c].reverse() + rest;
            lemma_dfs_walk_covers(m, news, visited.insert(c));
            let w2 = dfs_walk(m, news, visited.insert(c));
            assert(out == seq![c] + w2);
            assert forall|k: int| 0 <= k < stack.len() && m.commits.dom().finite()
                && m.commits.contains_key(#[trigger] stack[k]) implies
                out.contains(stack[k]) || visited.contains(stack[k]) by {
                if k == 0 {
                    assert(out[0] == c);
                    assert(out.contains(c));
                } else {
                    let x = stack[k];
                    let pk = m.commits[c].reverse().len() + k - 1;
                    assert(news[pk] == rest[k - 1]);
                    assert(m.commits.contains_key(news[pk]));
                    if w2.contains(x) {
                        let j = choose|j: int| 0 <= j < w2.len() && w2[j] == x;
                        assert(out[j + 1] == x);
                        assert(out.contains(x));
                    } else if x == c {
                        assert(out[0] == c);
                        assert(out.contains(x));
                    } else {
                        assert(visited.insert(c).contains(x));
                        assert(visited.contains(x));
                    }
                }
            }
        }
    }
}

/// The walk never emits a visited commit, and never emits one twice.
proof fn lemma_dfs_walk_distinct(m: RepoModel, stack: Seq<Seq<u8>>, visited: Set<Seq<u8>>)
    ensures
        forall|k: int| 0 <= k < dfs_walk(m, stack, visited).len() ==>
            !visited.contains(#[trigger] dfs_walk(m, stack, visited)[k]),
        forall|k: int, l: int| 0 <= k < l < dfs_walk(m, stack, visited).len() ==>
            dfs_walk(m, stack, visited)[k] != dfs_walk(m, stack, visited)[l],
    decreases m.commits.dom().difference(visited).len(), stack.len(),
{
    broadcast use vstd::set::group_set_axioms;

    if stack.len() > 0 {
        let c = stack[0];
        let rest = stack.skip(1);
        let out = dfs_walk(m, stack, visited);
        if !m.commits.dom().finite() || visited.contains(c) || !m.commits.contains_key(c) {
            lemma_dfs_walk_distinct(m, rest, visited);
            assert(out == dfs_walk(m, rest, visited));
        } else {
            let d = m.commits.dom().difference(visited);
            assert(m.commits.dom().difference(visited.insert(c)) =~= d.remove(c));
            assert(d.remove(c).len() < d.len());
            let news = m.commits[c].reverse() + rest;
            lemma_dfs_walk_distinct(m, news, visited.insert(c));
            let w2 = dfs_walk(m, news, visited.insert(c));
            assert(out == seq![c] + w2);
            assert forall|k: int| 0 <= k < out.len() implies
                !visited.contains(#[trigger] out[k]) by {
                if k > 0 {
                    assert(out[k] == w2[k - 1]);
                    assert(!visited.insert(c).contains(w2[k - 1]));
                }
            }
            assert forall|k: int, l: int| 0 <= k < l < out.len() implies
                out[k] != out[l] by {
                if k == 0 {
                    assert(out[l] == w2[l - 1]);
                    assert(!visited.insert(c).contains(w2[l - 1]));
                    assert(out[l] != c);
                } else {
                    assert(out[k] == w2[k - 1] && out[l] == w2[l - 1]);
                }
            }
        }
    }
}

/// Whatever the walk emits has its parents emitted too, unless they were
/// already visited.
proof fn lemma_dfs_walk_closed(m: RepoModel, stack: Seq<Seq<u8>>, visited: Set<Seq<u8>>)
    requires
        m.wf(),
    ensures
        forall|k: int, j: int| 0 <= k < dfs_walk(m, stack, visited).len()
            && 0 <= j < m.commits[dfs_walk(m, stack, visited)[k]].len() ==>
            dfs_walk(m, stack, visited).contains(
                #[trigger] m.commits[dfs_walk(m, stack, visited)[k]][j])
                || visited.contains(m.commits[dfs_walk(m, stack, visited)[k]][j]),
    decreases m.commits.dom().difference(visited).len(), stack.len(),
{
    broadcast use vstd::set::group_set_axioms;

    if stack.len() > 0 {
        let c = stack[0];
        let rest = stack.skip(1);
        let out = dfs_walk(m, stack, visited);
        if !m.commits.dom().finite() || visited.contains(c) || !m.commits.contains_key(c) {
            lemma_dfs_walk_closed(m, rest, visited);
            assert(out == dfs_walk(m, rest, visited));
        } else {
            let d = m.commits.dom().difference(visited);
            assert(m.commits.dom().difference(visited.insert(c)) =~= d.remove(c));
            assert(d.remove(c).len() < d.len());
            let news = m.commits[c].reverse() + rest;
            lemma_dfs_walk_closed(m, news, visited.insert(c));
            lemma_dfs_walk_covers(m, news, visited.insert(c));
            lemma_dfs_walk_in_dom(m, news, visited.insert(c));
            let w2 = dfs_walk(m, news, visited.insert(c));
            assert(out == seq![c] + w2);
            assert forall|k: int, j: int| 0 <= k < out.len()
                && 0 <= j < m.commits[out[k]].len() implies
                out.contains(#[trigger] m.commits[out[k]][j])
                    || visited.contains(m.commits[out[k]][j]) by {
                if k == 0 {
                    assert(out[0] == c);
                    let p = m.commits[c][j];
                    assert(m.commits.contains_key(p));
                    let plen = m.commits[c].reverse().len();
                    assert(m.commits[c].reverse()[plen - 1 - j] == p);
                    assert(news[plen - 1 - j] == p);
                    assert(w2.contains(p) || visited.insert(c).contains(p));
                    if w2.contains(p) {
                        let i = choose|i: int| 0 <= i < w2.len() && w2[i] == p;
                        assert(out[i + 1] == p);
                        assert(out.contains(p));
                    } else if p == c {
                        assert(out[0] == p);
                        assert(out.contains(p));
                    } else {
                        assert(visited.contains(p));
                    }
                } else {
                    assert(out[k] == w2[k - 1]);
                    let p = m.commits[w2[k - 1]][j];
                    assert(w2.contains(p) || visited.insert(c).contains(p));
                    if w2.contains(p) {
                        let i = choose|i: int| 0 <= i < w2.len() && w2[i] == p;
                        assert(out[i + 1] == p);
                        assert(out.contains(p));
                    } else if p == c {
                        assert(out[0] == p);
                        assert(out.contains(p));
                    } else {
                        assert(visited.contains(p));
                    }
                }
            }
        }
    }
}

/// Ancestry closure and uniqueness: in the result of evaluating
/// `Ancestors(e)`, every parent of an emitted commit is emitted too, and no
/// commit id appears twice.
pub proof fn lemma_ancestors_closed_and_distinct(m: RepoModel, e: ExprModel)
    requires
        m.wf(),
    ensures
        match spec_evaluate(m, ExprModel::Ancestors(Box::new(e))) {
            EvalModel::Ids(out) => {
                &&& forall|k: int, j: int| 0 <= k < out.len()
                        && 0 <= j < m.commits[out[k]].len() ==>
                        out.contains(#[trigger] m.commits[out[k]][j])
                &&& forall|k: int, l: int| 0 <= k < l < out.len() ==> out[k] != out[l]
            },
            _ => true,
        },
{
    match spec_evaluate(m, e) {
        EvalModel::Ids(ids) => {
            lemma_dfs_walk_closed(m, ids, Set::empty());
            lemma_dfs_walk_distinct(m, ids, Set::empty());
            let out = dfs_walk(m, ids, Set::empty());
            assert(spec_evaluate(m, ExprModel::Ancestors(Box::new(e)))
                == EvalModel::Ids(out));
            assert forall|k: int, j: int| 0 <= k < out.len()
                && 0 <= j < m.commits[out[k]].len() implies
                out.contains(#[trigger] m.commits[out[k]][j]) by {
                assert(out.contains(m.commits[out[k]][j])
                    || Set::<Seq<u8>>::empty().contains(m.commits[out[k]][j]));
            }
        },
        _ => {},
    }
}

/// The deep view of a commit-id vector, element by element.
proof fn lemma_deep_view_points(v: Vec<CommitId>)
    ensures
        v.deep_view().len() == v@.len(),
        forall|j: int| 0 <= j < v@.len() ==> v.deep_view()[j] == (#[trigger] v@[j])@,
{
}

/// The set of a sequence grows by exactly the pushed element.
proof fn lemma_to_set_push(s: Seq<Seq<u8>>, x: Seq<u8>)
    ensures
        s.push(x).to_set() =~= s.to_set().insert(x),
{
    assert forall|y: Seq<u8>| s.push(x).to_set().contains(y) implies
        s.to_set().insert(x).contains(y) by {
        let j = choose|j: int| 0 <= j < s.push(x).len() && s.push(x)[j] == y;
        if j < s.len() {
            assert(s[j] == y);
        }
    }
    assert forall|y: Seq<u8>| s.to_set().insert(x).contains(y) implies
        s.push(x).to_set().contains(y) by {
        if y == x {
            assert(s.push(x)[s.len() as int] == y);
        } else {
            let j = choose|j: int| 0 <= j < s.len() && s[j] == y;
            assert(s.push(x)[j] == y);
        }
    }
}

/// Whether one of the ids in `v` is `id`.
fn contains_id_vec(v: &Vec<CommitId>, id: &CommitId) -> (r: bool)
    ensures
        r == v.deep_view().contains(id@),
{
    let mut i: usize = 0;
    while i < v.len()
        invariant
            i <= v@.len(),
            forall|j: int| 0 <= j < i ==> v.deep_view()[j] != id@,
        decreases v@.len() - i,
    {
        if v[i].eq_id(id) {
            assert(v.deep_view()[i as int] == id@);
            return true;
        }
        i = i + 1;
    }
    proof {
        if v.deep_view().contains(id@) {
            let j = choose|j: int| 0 <= j < v.deep_view().len() && v.deep_view()[j] == id@;
            assert(v.deep_view()[j] != id@);
        }
    }
    false
}

/// Evaluates an expression tree against a snapshot into an ordered,
/// per-operator deduplicated sequence of commit ids. Any resolver failure
/// aborts the evaluation and is returned unchanged: no partial results.
pub fn evaluate_expression(repo: &ReadonlyRepo, expression: &RevsetExpression) -> (r: Result<
    Vec<CommitId>,
    RevsetError,
>)
    requires
        repo.wf(),
    ensures
        match spec_evaluate(repo.model(), expression@) {
            EvalModel::Ids(ids) => r matches Ok(v) && v.deep_view() == ids,
            EvalModel::NoSuch(s) => r matches Err(RevsetError::NoSuchRevision(t)) && t@ == s,
            EvalModel::Ambiguous(s) =>
                r matches Err(RevsetError::AmbiguousCommitIdPrefix(t)) && t@ == s,
        },
    decreases *expression,
{
    let ghost m = repo.model();
    match expression {
        RevsetExpression::Symbol(s) => {
            match resolve_symbol(repo, s.as_str()) {
                Ok(c) => {
                    let mut out: Vec<CommitId> = Vec::new();
                    out.push(c.id);
                    proof {
                        assert(out.deep_view() =~= seq![spec_resolve(m, s@)->Found_0]);
                    }
                    Ok(out)
                },
                Err(e) => Err(e),
            }
        },
        RevsetExpression::Parents(b) => {
            match evaluate_expression(repo, b) {
                Ok(v) => {
                    let ghost ids = v.deep_view();
                    proof {
                        repo.lemma_model_wf();
                        lemma_eval_ids_in_dom(m, expr_model(**b));
                    }
                    let mut out: Vec<CommitId> = Vec::new();
                    let mut i: usize = 0;
                    proof {
                        assert(ids.skip(0) =~= ids);
                        assert(out.deep_view() =~=
                            Seq::<Seq<u8>>::empty());
                        assert(out.deep_view() + rev_parents_all(m, ids.skip(0))
                            =~= rev_parents_all(m, ids));
                    }
                    while i < v.len()
                        invariant
                            i <= v@.len(),
                            repo.wf(),
                            m == repo.model(),
                            v.deep_view() == ids,
                            forall|k: int| 0 <= k < ids.len() ==>
                                m.commits.contains_key(#[trigger] ids[k]),
                            out.deep_view() + rev_parents_all(m, ids.skip(i as int))
                                == rev_parents_all(m, ids),
                        decreases v@.len() - i,
                    {
                        proof {
                            assert(repo.store.contains_id(ids[i as int]));
                        }
                        let c = repo.store.get_commit(&v[i]).unwrap();
                        let ghost out0 = out.deep_view();
                        let ghost ps = m.commits[ids[i as int]];
                        proof {
                            assert(c.parent_ids.deep_view() == repo.store.parents_of(
                                ids[i as int]));
                            assert(ps == c.parent_ids.deep_view());
                        }
                        let np = c.parent_ids.len();
                        let mut k: usize = 0;
                        while k < np
                            invariant
                                k <= np,
                                np == c.parent_ids@.len(),
                                c.parent_ids.deep_view() == ps,
                                out.deep_view() == out0 + ps.reverse().take(k as int),
                            decreases np - k,
                        {
                            let ghost opre = out@;
                            proof {
                                lemma_deep_view_points(out);
                            }
                            out.push(c.parent_ids[np - 1 - k].clone());
                            proof {
                                lemma_deep_view_points(out);
                                assert(ps.reverse()[k as int] == ps[np - 1 - k]);
                                assert(out.deep_view() =~= out0 + ps.reverse().take(
                                    k + 1)) by {
                                    assert forall|j: int| 0 <= j < out@.len() implies
                                        out.deep_view()[j] == (out0 + ps.reverse().take(
                                            k + 1))[j] by {
                                        if j < opre.len() {
                                            assert(out@[j] == opre[j]);
                                            assert(out.deep_view()[j] == opre[j]@);
                                        } else {
                                            assert(out@[j]@ == ps[np - 1 - k]);
                                        }
                                    }
                                }
                            }
                            k = k + 1;
                        }
                        proof {
                            assert(ps.reverse().take(np as int) =~= ps.reverse());
                            let rest = ids.skip(i as int);
                            assert(rest[0] == ids[i as int]);
                            assert(rest.skip(1) =~= ids.skip(i + 1));
                            assert(rev_parents_all(m, rest)
                                == ps.reverse() + rev_parents_all(m, ids.skip(i + 1)));
                            assert((out0 + ps.reverse()) + rev_parents_all(m, ids.skip(i + 1))
                                =~= out0 + (ps.reverse() + rev_parents_all(m, ids.skip(i + 1))));
                        }
                        i = i + 1;
                    }
                    proof {
                        assert(ids.skip(ids.len() as int) =~= Seq::<Seq<u8>>::empty());
                        assert(rev_parents_all(m, ids.skip(ids.len() as int))
                            =~= Seq::<Seq<u8>>::empty());
                        assert(out.deep_view() + Seq::<Seq<u8>>::empty() =~= out.deep_view());
                    }
                    Ok(out)
                },
                Err(e) => Err(e),
            }
        },
        RevsetExpression::Ancestors(b) => {
            match evaluate_expression(repo, b) {
                Ok(roots) => {
                    let ghost rids = roots.deep_view();
                    proof {
                        repo.lemma_model_wf();
                        lemma_eval_ids_in_dom(m, expr_model(**b));
                    }
                    let n = roots.len();
                    let mut stack: Vec<CommitId> = Vec::new();
                    let mut i: usize = 0;
                    while i < n
                        invariant
                            i <= n,
                            n == roots@.len(),
                            roots.deep_view() == rids,
                            stack@.len() == i,
                            forall|j: int| 0 <= j < i ==>
                                stack.deep_view()[j] == rids[n - 1 - j],
                        decreases n - i,
                    {
                        let ghost spre = stack@;
                        proof {
                            lemma_deep_view_points(stack);
                            lemma_deep_view_points(roots);
                        }
                        stack.push(roots[n - 1 - i].clone());
                        proof {
                            lemma_deep_view_points(stack);
                            assert forall|j: int| 0 <= j < i + 1 implies
                                stack.deep_view()[j] == rids[n - 1 - j] by {
                                if j < i {
                                    assert(stack@[j] == spre[j]);
                                    assert(stack.deep_view()[j] == spre[j]@);
                                } else {
                                    assert(stack@[j]@ == roots@[n - 1 - i as int]@);
                                }
                            }
                        }
                        i = i + 1;
                    }
                    proof {
                        lemma_deep_view_points(stack);
                        assert(stack.deep_view().reverse() =~= rids);
                    }
                    let mut visited: Vec<CommitId> = Vec::new();
                    let mut out: Vec<CommitId> = Vec::new();
                    proof {
                        assert(visited.deep_view().to_set() =~= Set::<Seq<u8>>::empty());
                        assert(out.deep_view() + dfs_walk(m, stack.deep_view().reverse(),
                            visited.deep_view().to_set()) =~= dfs_walk(m, rids,
                            Set::empty()));
                    }
                    while stack.len() > 0
                        invariant
                            repo.wf(),
                            m == repo.model(),
                            m.wf(),
                            forall|j: int| 0 <= j < stack@.len() ==>
                                m.commits.contains_key(#[trigger] stack.deep_view()[j]),
                            out.deep_view() + dfs_walk(m, stack.deep_view().reverse(),
                                visited.deep_view().to_set())
                                == dfs_walk(m, rids, Set::empty()),
                        decreases
                            m.commits.dom().difference(
                                visited.deep_view().to_set()).len(),
                            stack@.len(),
                    {
                        broadcast use vstd::set::group_set_axioms;

                        let ghost sstack = stack.deep_view().reverse();
                        let ghost vset = visited.deep_view().to_set();
                        let ghost pre = stack.deep_view();
                        let c = stack.pop().unwrap();
                        proof {
                            assert(c@ == pre[pre.len() - 1]);
                            assert(sstack[0] == c@);
                            assert(stack.deep_view() =~= pre.take(pre.len() - 1));
                            assert(stack.deep_view().reverse() =~= sstack.skip(1));
                        }
                        if contains_id_vec(&visited, &c) {
                            proof {
                                assert(vset.contains(c@));
                                assert(dfs_walk(m, sstack, vset)
                                    == dfs_walk(m, sstack.skip(1), vset));
                            }
                        } else {
                            proof {
                                assert(!vset.contains(c@));
                                assert(m.commits.dom().finite());
                                assert(m.commits.contains_key(c@));
                            }
                            let ghost out0 = out.deep_view();
                            out.push(c.clone());
                            let commit = repo.store.get_commit(&c).unwrap();
                            let ghost ps = m.commits[c@];
                            proof {
                                assert(repo.store.contains_id(c@));
                                assert(commit.parent_ids.deep_view()
                                    == repo.store.parents_of(c@));
                                assert(ps == commit.parent_ids.deep_view());
                            }
                            let ghost vpre = visited.deep_view();
                            let ghost vpre_at = visited@;
                            proof {
                                lemma_deep_view_points(visited);
                            }
                            visited.push(c.clone());
                            proof {
                                lemma_deep_view_points(visited);
                                assert(visited.deep_view() =~= vpre.push(c@)) by {
                                    assert forall|j: int| 0 <= j < visited@.len() implies
                                        visited.deep_view()[j] == vpre.push(c@)[j] by {
                                        if j < vpre_at.len() {
                                            assert(visited@[j] == vpre_at[j]);
                                            assert(visited.deep_view()[j] == vpre_at[j]@);
                                        } else {
                                            assert(visited@[j]@ == c@);
                                        }
                                    }
                                }
                                lemma_to_set_push(vpre, c@);
                                assert(visited.deep_view().to_set() =~= vset.insert(c@));
                            }
                            let ghost base = stack.deep_view();
                            let np = commit.parent_ids.len();
                            let mut k: usize = 0;
                            while k < np
                                invariant
                                    k <= np,
                                    np == commit.parent_ids@.len(),
                                    commit.parent_ids.deep_view() == ps,
                                    stack.deep_view() == base + ps.take(k as int),
                                decreases np - k,
                            {
                                let ghost spre = stack@;
                                proof {
                                    lemma_deep_view_points(stack);
                                    lemma_deep_view_points(commit.parent_ids);
                                }
                                stack.push(commit.parent_ids[k].clone());
                                proof {
                                    lemma_deep_view_points(stack);
                                    assert(stack.deep_view() =~= base + ps.take(k + 1)) by {
                                        assert forall|j: int| 0 <= j < stack@.len() implies
                                            stack.deep_view()[j]
                                                == (base + ps.take(k + 1))[j] by {
                                            if j < spre.len() {
                                                assert(stack@[j] == spre[j]);
                                                assert(stack.deep_view()[j] == spre[j]@);
                                            } else {
                                                assert(stack@[j]@
                                                    == commit.parent_ids@[k as int]@);
                                                assert(ps[k as int]
                                                    == commit.parent_ids@[k as int]@);
                                            }
                                        }
                                    }
                                }
                                k = k + 1;
                            }
                            proof {
                                assert(ps.take(np as int) =~= ps);
                                assert(stack.deep_view() == base + ps);
                                assert(base.reverse() =~= sstack.skip(1));
                                assert(stack.deep_view().reverse()
                                    =~= ps.reverse() + sstack.skip(1)) by {
                                    let news = stack.deep_view().reverse();
                                    let want = ps.reverse() + sstack.skip(1);
                                    assert(news.len() == want.len());
                                    assert forall|j: int| 0 <= j < news.len() implies
                                        news[j] == want[j] by {
                                        let l = base.len() + ps.len();
                                        assert(news[j] == (base + ps)[l - 1 - j]);
                                        if j < ps.len() {
                                            assert((base + ps)[l - 1 - j]
                                                == ps[ps.len() - 1 - j]);
                                        } else {
                                            assert((base + ps)[l - 1 - j]
                                                == base[base.len() - 1 - (j - ps.len())]);
                                            assert(want[j] == sstack.skip(1)[j - ps.len()]);
                                            assert(sstack.skip(1)[j - ps.len()]
                                                == base.reverse()[j - ps.len()]);
                                        }
                                    }
                                }
                                assert(dfs_walk(m, sstack, vset) == seq![c@] + dfs_walk(m,
                                    ps.reverse() + sstack.skip(1), vset.insert(c@)));
                                assert(out.deep_view() =~= out0 + seq![c@]);
                                assert((out0 + seq![c@]) + dfs_walk(m,
                                    stack.deep_view().reverse(),
                                    visited.deep_view().to_set())
                                    =~= out0 + (seq![c@] + dfs_walk(m,
                                        stack.deep_view().reverse(),
                                        visited.deep_view().to_set())));
                                // the new stack holds stored commits only
                                assert forall|j: int| 0 <= j < stack@.len() implies
                                    m.commits.contains_key(
                                        #[trigger] stack.deep_view()[j]) by {
                                    if j < base.len() {
                                        assert(stack.deep_view()[j] == base[j]);
                                        assert(base[j] == pre.take(pre.len() - 1)[j]);
                                    } else {
                                        assert(stack.deep_view()[j] == ps[j - base.len()]);
                                        assert(m.commits.contains_key(
                                            m.commits[c@][j - base.len()]));
                                    }
                                }
                                // the unvisited count shrinks
                                let d = m.commits.dom().difference(vset);
                                assert(m.commits.dom().difference(vset.insert(c@))
                                    =~= d.remove(c@));
                                assert(d.remove(c@).len() < d.len());
                            }
                        }
                    }
                    proof {
                        assert(stack.deep_view().reverse() =~= Seq::<Seq<u8>>::empty());
                        assert(dfs_walk(m, stack.deep_view().reverse(),
                            visited.deep_view().to_set()) =~= Seq::<Seq<u8>>::empty());
                        assert(out.deep_view() + Seq::<Seq<u8>>::empty() =~= out.deep_view());
                    }
                    Ok(out)
                },
                Err(e) => Err(e),
            }
        },
    }
}

} // verus!
