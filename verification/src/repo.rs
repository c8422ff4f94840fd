//! One repository snapshot: the commit store together with the view — the
//! checkout pointer and the ref-name table.
//!
//! The snapshot is immutable for the duration of an evaluation; the engine
//! only reads it. `RepoModel` is its spec-level picture, over which the
//! contracts of the parser, resolver and evaluator are stated.

use vstd::prelude::*;

use crate::store::{CommitId, Store};

verus! {

/// Spec-level picture of a snapshot: commit id to parent ids, the root id,
/// the checkout id, and the ref table.
pub struct RepoModel {
    pub commits: Map<Seq<u8>, Seq<Seq<u8>>>,
    pub root: Seq<u8>,
    pub checkout: Seq<u8>,
    pub refs: Map<Seq<char>, Seq<u8>>,
}

impl RepoModel {
    /// The snapshot is internally consistent: the root commit exists and has
    /// no parents, the checkout and every ref target and parent pointer lead
    /// to existing commits.
    pub open spec fn wf(self) -> bool {
        &&& self.commits.dom().finite()
        &&& self.commits.contains_key(self.root)
        &&& self.commits[self.root].len() == 0
        &&& self.commits.contains_key(self.checkout)
        &&& forall|id: Seq<u8>, k: int|
            self.commits.contains_key(id) && 0 <= k < self.commits[id].len() ==>
                self.commits.contains_key(#[trigger] self.commits[id][k])
        &&& forall|n: Seq<char>| #[trigger] self.refs.contains_key(n) ==>
                self.commits.contains_key(self.refs[n])
    }
}

/// One ref: a fully-qualified name pointing at a commit.
pub struct RefEntry {
    pub name: String,
    pub target: CommitId,
}

/// The view half of a snapshot: the current checkout and the name-to-commit
/// ref table, with unique names.
pub struct RepoView {
    pub checkout: CommitId,
    pub git_refs: Vec<RefEntry>,
}

impl RepoView {
    /// Whether the table holds a ref of this name.
    pub open spec fn refs_has(self, name: Seq<char>) -> bool {
        exists|i: int|
            0 <= i < self.git_refs@.len() && (#[trigger] self.git_refs@[i].name@) == name
    }

    /// The position of the ref of this name.
    pub open spec fn ref_index(self, name: Seq<char>) -> int {
        choose|i: int|
            0 <= i < self.git_refs@.len() && (#[trigger] self.git_refs@[i].name@) == name
    }

    /// The table as a mapping from ref name to commit id.
    pub open spec fn refs_map(self) -> Map<Seq<char>, Seq<u8>> {
        Map::new(
            |n: Seq<char>| self.refs_has(n),
            |n: Seq<char>| self.git_refs@[self.ref_index(n)].target@,
        )
    }

    /// Ref names are unique keys.
    pub open spec fn wf(self) -> bool {
        forall|i: int, j: int| 0 <= i < j < self.git_refs@.len() ==>
            (#[trigger] self.git_refs@[i].name@) != (#[trigger] self.git_refs@[j].name@)
    }

    /// With unique names, `ref_index` returns the one position holding a name.
    pub proof fn lemma_ref_index(self, i: int, name: Seq<char>)
        requires
            self.wf(),
            0 <= i < self.git_refs@.len(),
            self.git_refs@[i].name@ == name,
        ensures
            self.refs_has(name),
            self.ref_index(name) == i,
    {
        assert(self.refs_has(name));
        let j = self.ref_index(name);
        if i < j {
            assert(self.git_refs@[i].name@ != self.git_refs@[j].name@);
        } else if j < i {
            assert(self.git_refs@[j].name@ != self.git_refs@[i].name@);
        }
    }

    /// A view with the given checkout and an empty ref table.
    pub fn new(checkout: CommitId) -> (v: RepoView)
        ensures
            v.wf(),
            v.checkout@ == checkout@,
            v.refs_map() == Map::<Seq<char>, Seq<u8>>::empty(),
    {
        let v = RepoView { checkout, git_refs: Vec::new() };
        proof {
            assert(v.refs_map() =~= Map::<Seq<char>, Seq<u8>>::empty());
        }
        v
    }

    /// The target of the ref named `name`, where the table holds one.
    pub fn get_git_ref(&self, name: &String) -> (r: Option<&CommitId>)
        requires
            self.wf(),
        ensures
            r is Some <==> self.refs_map().contains_key(name@),
            r matches Some(t) ==> t@ == self.refs_map()[name@],
    {
        let mut i: usize = 0;
        while i < self.git_refs.len()
            invariant
                i <= self.git_refs@.len(),
                self.wf(),
                forall|j: int| 0 <= j < i ==> (#[trigger] self.git_refs@[j].name@) != name@,
            decreases self.git_refs@.len() - i,
        {
            if self.git_refs[i].name == *name {
                proof {
                    self.lemma_ref_index(i as int, name@);
                }
                return Some(&self.git_refs[i].target);
            }
            i = i + 1;
        }
        proof {
            if self.refs_has(name@) {
                let j = choose|j: int|
                    0 <= j < self.git_refs@.len()
                        && (#[trigger] self.git_refs@[j].name@) == name@;
                assert(self.git_refs@[j].name@ != name@);
            }
        }
        None
    }

    /// Binds `name` to `target`, replacing any earlier binding of that name.
    pub fn insert_git_ref(&mut self, name: String, target: CommitId)
        requires
            old(self).wf(),
        ensures
            final(self).wf(),
            final(self).checkout@ == old(self).checkout@,
            final(self).refs_map() == old(self).refs_map().insert(name@, target@),
    {
        let ghost nm = name@;
        let mut i: usize = 0;
        while i < self.git_refs.len()
            invariant
                *self == *old(self),
                old(self).wf(),
                i <= self.git_refs@.len(),
                forall|j: int| 0 <= j < i ==> (#[trigger] self.git_refs@[j].name@) != nm,
                nm == name@,
            decreases self.git_refs@.len() - i,
        {
            if self.git_refs[i].name == *(&name) {
                let entry = RefEntry { name, target };
                self.git_refs.set(i, entry);
                proof {
                    let prev = *old(self);
                    assert(self.git_refs@ == prev.git_refs@.update(i as int, entry));
                    assert(self.git_refs@[i as int].name@ == nm);
                    assert(prev.git_refs@[i as int].name@ == nm);
                    assert forall|a: int, b: int| 0 <= a < b < self.git_refs@.len() implies
                        (#[trigger] self.git_refs@[a].name@)
                            != (#[trigger] self.git_refs@[b].name@) by {
                        assert(prev.git_refs@[a].name@ != prev.git_refs@[b].name@);
                        if a != i as int && b != i as int {
                        } else if a == i as int {
                            assert(self.git_refs@[b].name@ == prev.git_refs@[b].name@);
                        } else {
                            assert(self.git_refs@[a].name@ == prev.git_refs@[a].name@);
                        }
                    }
                    assert(self.refs_map() =~= prev.refs_map().insert(nm, target@)) by {
                        assert forall|n: Seq<char>| self.refs_has(n) implies
                            self.refs_map()[n]
                                == prev.refs_map().insert(nm, target@)[n] by {
                            let a = choose|a: int| 0 <= a < self.git_refs@.len()
                                && (#[trigger] self.git_refs@[a].name@) == n;
                            self.lemma_ref_index(a, n);
                            if a != i as int {
                                assert(prev.git_refs@[a].name@ == n);
                                prev.lemma_ref_index(a, n);
                                assert(n != nm);
                            }
                        }
                        assert forall|n: Seq<char>| prev.refs_has(n) || n == nm implies
                            self.refs_has(n) by {
                            if prev.refs_has(n) {
                                let a = choose|a: int| 0 <= a < prev.git_refs@.len()
                                    && (#[trigger] prev.git_refs@[a].name@) == n;
                                if a == i as int {
                                    assert(prev.git_refs@[a].name@ == nm);
                                    assert(self.git_refs@[a].name@ == n);
                                } else {
                                    assert(self.git_refs@[a].name@ == n);
                                }
                            }
                            if n == nm {
                                assert(self.git_refs@[i as int].name@ == n);
                            }
                        }
                        assert forall|n: Seq<char>| self.refs_has(n) implies
                            prev.refs_has(n) || n == nm by {
                            let a = choose|a: int| 0 <= a < self.git_refs@.len()
                                && (#[trigger] self.git_refs@[a].name@) == n;
                            if a != i as int {
                                assert(prev.git_refs@[a].name@ == n);
                            }
                        }
                    }
                }
                return;
            }
            i = i + 1;
        }
        let entry = RefEntry { name, target };
        self.git_refs.push(entry);
        proof {
            let prev = *old(self);
            let len = prev.git_refs@.len() as int;
            assert(self.git_refs@ == prev.git_refs@.push(entry));
            assert(self.git_refs@[len].name@ == nm);
            assert forall|a: int, b: int| 0 <= a < b < self.git_refs@.len() implies
                (#[trigger] self.git_refs@[a].name@)
                    != (#[trigger] self.git_refs@[b].name@) by {
                if b < len {
                    assert(prev.git_refs@[a].name@ != prev.git_refs@[b].name@);
                } else {
                    assert(self.git_refs@[b].name@ == nm);
                    assert(prev.git_refs@[a].name@ == self.git_refs@[a].name@);
                }
            }
            assert(self.refs_map() =~= prev.refs_map().insert(nm, target@)) by {
                self.lemma_ref_index(len, nm);
                assert forall|n: Seq<char>| self.refs_has(n) implies
                    self.refs_map()[n] == prev.refs_map().insert(nm, target@)[n] by {
                    let a = choose|a: int| 0 <= a < self.git_refs@.len()
                        && (#[trigger] self.git_refs@[a].name@) == n;
                    self.lemma_ref_index(a, n);
                    if a < len {
                        assert(prev.git_refs@[a].name@ == n);
                        prev.lemma_ref_index(a, n);
                        assert(n != nm);
                    }
                }
                assert forall|n: Seq<char>| prev.refs_has(n) || n == nm implies
                    self.refs_has(n) by {
                    if prev.refs_has(n) {
                        let a = choose|a: int| 0 <= a < prev.git_refs@.len()
                            && (#[trigger] prev.git_refs@[a].name@) == n;
                        assert(self.git_refs@[a].name@ == n);
                    }
                }
                assert forall|n: Seq<char>| self.refs_has(n) implies
                    prev.refs_has(n) || n == nm by {
                    let a = choose|a: int| 0 <= a < self.git_refs@.len()
                        && (#[trigger] self.git_refs@[a].name@) == n;
                    if a < len {
                        assert(prev.git_refs@[a].name@ == n);
                    }
                }
            }
        }
    }
}

/// One repository snapshot: a commit store and a view onto it.
pub struct ReadonlyRepo {
    pub store: Store,
    pub view: RepoView,
}

impl ReadonlyRepo {
    /// The snapshot's spec-level picture.
    pub open spec fn model(self) -> RepoModel {
        RepoModel {
            commits: self.store.commit_map(),
            root: self.store.root_id@,
            checkout: self.view.checkout@,
            refs: self.view.refs_map(),
        }
    }

    /// Internal consistency: the store and view are well formed, and the
    /// checkout and every ref target lead to stored commits.
    pub open spec fn wf(self) -> bool {
        &&& self.store.wf()
        &&& self.view.wf()
        &&& self.store.contains_id(self.view.checkout@)
        &&& forall|i: int| 0 <= i < self.view.git_refs@.len() ==>
                self.store.contains_id(#[trigger] self.view.git_refs@[i].target@)
    }

    /// A well-formed snapshot has a well-formed picture.
    pub proof fn lemma_model_wf(self)
        requires
            self.wf(),
        ensures
            self.model().wf(),
    {
        let m = self.model();
        self.store.lemma_commit_map_dom_finite();
        assert forall|id: Seq<u8>, k: int|
            m.commits.contains_key(id) && 0 <= k < m.commits[id].len() implies
            m.commits.contains_key(#[trigger] m.commits[id][k]) by {
            let i = self.store.index_of(id);
            assert(0 <= i < self.store.commits@.len() && self.store.commits@[i].id@ == id);
            assert(m.commits[id] == self.store.commits@[i].parent_ids.deep_view());
            assert(m.commits[id][k] == self.store.commits@[i].parent_ids@[k]@);
            assert(self.store.contains_id(self.store.commits@[i].parent_ids@[k]@));
        }
        assert forall|n: Seq<char>| #[trigger] m.refs.contains_key(n) implies
            m.commits.contains_key(m.refs[n]) by {
            let i = self.view.ref_index(n);
            assert(0 <= i < self.view.git_refs@.len()
                && self.view.git_refs@[i].name@ == n);
            assert(m.refs[n] == self.view.git_refs@[i].target@);
        }
    }

    /// A snapshot over the given store and view.
    pub fn init(store: Store, view: RepoView) -> (r: ReadonlyRepo)
        ensures
            r.store == store,
            r.view == view,
    {
        ReadonlyRepo { store, view }
    }
}

} // verus!
