//! Filesystem paths as the engine models them: a sequence of name
//! components. The caller owns the translation to and from the platform's
//! path type; the engine only joins components and takes parents.

use vstd::prelude::*;
use vstd::string::StringExecFns;

verus! {

/// A path as its sequence of components, outermost first.
#[derive(Debug, PartialEq, Eq)]
pub struct FsPath {
    pub components: Vec<String>,
}

impl View for FsPath {
    type V = Seq<Seq<char>>;

    open spec fn view(&self) -> Seq<Seq<char>> {
        self.components.deep_view()
    }
}

impl Clone for FsPath {
    fn clone(&self) -> (r: Self)
        ensures
            r@ == self@,
    {
        let mut components: Vec<String> = Vec::new();
        let mut i: usize = 0;
        while i < self.components.len()
            invariant
                i <= self.components@.len(),
                components@.len() == i,
                forall|j: int| 0 <= j < i ==> components@[j] == self.components@[j],
            decreases self.components@.len() - i,
        {
            components.push(self.components[i].clone());
            i = i + 1;
        }
        proof {
            assert(components.deep_view() =~= self.components.deep_view()) by {
                assert forall|j: int| 0 <= j < components@.len() implies
                    components.deep_view()[j] == self.components.deep_view()[j] by {
                    assert(components@[j] == self.components@[j]);
                }
            }
        }
        FsPath { components }
    }
}

impl FsPath {
    /// The path over the given components.
    pub fn from_components(components: Vec<String>) -> (r: FsPath)
        ensures
            r@ == components.deep_view(),
    {
        FsPath { components }
    }

    /// The empty path.
    pub fn empty() -> (r: FsPath)
        ensures
            r@ == Seq::<Seq<char>>::empty(),
    {
        let r = FsPath { components: Vec::new() };
        proof {
            assert(r@ =~= Seq::<Seq<char>>::empty());
        }
        r
    }

    /// This path extended by one more component.
    pub fn join(&self, name: &str) -> (r: FsPath)
        ensures
            r@ == self@.push(name@),
    {
        let mut r = self.clone();
        let ghost pre = r.components@;
        r.components.push(String::from_str(name));
        proof {
            assert(r@ =~= self@.push(name@)) by {
                assert forall|j: int| 0 <= j < r.components@.len() implies
                    r@[j] == self@.push(name@)[j] by {
                    if j < pre.len() {
                        assert(r.components@[j] == pre[j]);
                    } else {
                        assert(r.components@[j]@ == name@);
                    }
                }
            }
        }
        r
    }

    /// The path without its last component, where one exists.
    pub fn parent(&self) -> (r: Option<FsPath>)
        ensures
            match r {
                Some(p) => self@.len() > 0 && p@ == self@.take(self@.len() - 1),
                None => self@.len() == 0,
            },
    {
        if self.components.len() == 0 {
            return None;
        }
        let mut p = self.clone();
        let ghost pre = p.components@;
        let _last = p.components.pop();
        proof {
            assert(p@ =~= self@.take(self@.len() - 1)) by {
                assert forall|j: int| 0 <= j < p.components@.len() implies
                    p@[j] == self@.take(self@.len() - 1)[j] by {
                    assert(p.components@[j] == pre[j]);
                }
            }
        }
        Some(p)
    }
}

} // verus!
