//! Commits and the commit store of one repository snapshot.
//!
//! A [`CommitId`] is a fixed-width content hash; a [`Commit`] records its id
//! and the ids of its parents in authorship order; a [`Store`] holds every
//! commit of a snapshot, among them the distinguished root commit, and
//! answers lookups by id and by hex id prefix.

use vstd::prelude::*;

use crate::hex::{hex_char_of, hex_digit_char, hex_of, hex_value_of, is_hex_char, lex_lt,
    lemma_hex_of_injective, lemma_lex_lt_asym, lemma_lex_lt_trans, lemma_lex_skip_eq,
    lemma_lex_trichotomy, lemma_prefix_le, lemma_prefix_sandwich, lemma_strict_prefix_lt,
    lemma_hex_value_digit_char, nibble_at};

verus! {

/// Relies on std's `String::push`: appends the given character to the end
/// of the string.
pub assume_specification[ String::push ](s: &mut String, c: char)
    ensures
        final(s)@ == old(s)@.push(c),
;

/// The identity of one commit: a content hash, globally unique within a
/// store, whose textual form is its lowercase hex encoding.
#[derive(Debug, PartialEq, Eq)]
pub struct CommitId {
    pub bytes: Vec<u8>,
}

impl View for CommitId {
    type V = Seq<u8>;

    open spec fn view(&self) -> Seq<u8> {
        self.bytes@
    }
}

impl DeepView for CommitId {
    type V = Seq<u8>;

    open spec fn deep_view(&self) -> Seq<u8> {
        self.bytes@
    }
}

impl Clone for CommitId {
    fn clone(&self) -> (r: Self)
        ensures
            r@ == self@,
    {
        let mut bytes: Vec<u8> = Vec::new();
        let mut i: usize = 0;
        while i < self.bytes.len()
            invariant
                i <= self.bytes.len(),
                bytes@ == self.bytes@.take(i as int),
            decreases self.bytes.len() - i,
        {
            bytes.push(self.bytes[i]);
            i = i + 1;
            proof {
                assert(bytes@ =~= self.bytes@.take(i as int));
            }
        }
        proof {
            assert(bytes@ =~= self.bytes@);
        }
        CommitId { bytes }
    }
}

impl CommitId {
    /// A commit id over the given hash bytes.
    pub fn new(bytes: Vec<u8>) -> (r: CommitId)
        ensures
            r@ == bytes@,
    {
        CommitId { bytes }
    }

    /// The id whose hex form is `s`: `Some` exactly for strings of
    /// lowercase hex digits of even length.
    pub fn from_hex(s: &str) -> (r: Option<CommitId>)
        ensures
            match r {
                Some(id) => s@.len() % 2 == 0 && hex_of(id@) == s@,
                None => !(s@.len() % 2 == 0 && (forall|j: int|
                    0 <= j < s@.len() ==> is_hex_char(s@[j]))),
            },
    {
        let n = s.unicode_len();
        if n % 2 != 0 {
            return None;
        }
        let mut bytes: Vec<u8> = Vec::new();
        let mut i: usize = 0;
        while i < n / 2
            invariant
                0 <= i <= n / 2,
                n % 2 == 0,
                n == s@.len(),
                bytes@.len() == i,
                forall|j: int| 0 <= j < 2 * i ==> is_hex_char(s@[j]),
                forall|j: int| 0 <= j < 2 * i ==>
                    #[trigger] hex_digit_char(nibble_at(bytes@, j)) == s@[j],
            decreases n / 2 - i,
        {
            let hi = match hex_value_of(s.get_char(2 * i)) {
                Some(v) => v,
                None => {
                    return None;
                },
            };
            let lo = match hex_value_of(s.get_char(2 * i + 1)) {
                Some(v) => v,
                None => {
                    return None;
                },
            };
            let b: u8 = hi * 16 + lo;
            let ghost pre = bytes@;
            bytes.push(b);
            proof {
                assert(b / 16 == hi && b % 16 == lo) by (nonlinear_arith)
                    requires
                        hi < 16,
                        lo < 16,
                        b == hi * 16 + lo,
                ;
                lemma_hex_value_digit_char(s@[2 * i as int]);
                lemma_hex_value_digit_char(s@[2 * i + 1]);
                assert forall|j: int| 0 <= j < 2 * (i + 1) implies
                    #[trigger] hex_digit_char(nibble_at(bytes@, j)) == s@[j] by {
                    if j < 2 * i {
                        assert(bytes@[j / 2] == pre[j / 2]);
                        assert(nibble_at(bytes@, j) == nibble_at(pre, j));
                    } else {
                        assert(j / 2 == i);
                        assert(bytes@[j / 2] == b);
                        if j % 2 == 0 {
                            assert(j == 2 * i);
                            assert(nibble_at(bytes@, j) == hi);
                        } else {
                            assert(j == 2 * i + 1);
                            assert(nibble_at(bytes@, j) == lo);
                        }
                    }
                }
            }
            i = i + 1;
        }
        proof {
            assert(hex_of(bytes@) =~= s@);
        }
        Some(CommitId { bytes })
    }

    /// The lowercase hex form of this id.
    pub fn hex(&self) -> (r: String)
        ensures
            r@ == hex_of(self@),
    {
        let mut r = String::new();
        let mut i: usize = 0;
        while i < self.bytes.len()
            invariant
                i <= self.bytes.len(),
                r@.len() == 2 * i,
                forall|j: int| 0 <= j < 2 * i ==>
                    r@[j] == #[trigger] hex_digit_char(nibble_at(self@, j)),
            decreases self.bytes.len() - i,
        {
            let b = self.bytes[i];
            r.push(hex_char_of(b / 16));
            r.push(hex_char_of(b % 16));
            proof {
                assert(nibble_at(self@, 2 * i as int) == b / 16);
                assert(nibble_at(self@, 2 * i + 1) == b % 16);
            }
            i = i + 1;
        }
        proof {
            assert(r@ =~= hex_of(self@));
        }
        r
    }

    /// Whether the two ids are the same hash.
    pub fn eq_id(&self, other: &CommitId) -> (r: bool)
        ensures
            r == (self@ == other@),
    {
        if self.bytes.len() != other.bytes.len() {
            return false;
        }
        let mut i: usize = 0;
        while i < self.bytes.len()
            invariant
                i <= self.bytes.len(),
                self.bytes.len() == other.bytes.len(),
                forall|j: int| 0 <= j < i ==> self@[j] == other@[j],
            decreases self.bytes.len() - i,
        {
            if self.bytes[i] != other.bytes[i] {
                return false;
            }
            i = i + 1;
        }
        proof {
            assert(self@ =~= other@);
        }
        true
    }

    /// The lowercase hex form of this id, character by character.
    pub fn hex_chars(&self) -> (r: Vec<char>)
        ensures
            r@ == hex_of(self@),
    {
        let mut r: Vec<char> = Vec::new();
        let mut i: usize = 0;
        while i < self.bytes.len()
            invariant
                i <= self.bytes.len(),
                r@.len() == 2 * i,
                forall|j: int| 0 <= j < 2 * i ==>
                    r@[j] == #[trigger] hex_digit_char(nibble_at(self@, j)),
            decreases self.bytes.len() - i,
        {
            let b = self.bytes[i];
            r.push(hex_char_of(b / 16));
            r.push(hex_char_of(b % 16));
            proof {
                assert(nibble_at(self@, 2 * i as int) == b / 16);
                assert(nibble_at(self@, 2 * i + 1) == b % 16);
            }
            i = i + 1;
        }
        proof {
            assert(r@ =~= hex_of(self@));
        }
        r
    }
}

/// One commit: its id and the ids of its parents, in authorship order
/// (first parent first), preserved verbatim from creation.
#[derive(Debug, PartialEq, Eq)]
pub struct Commit {
    pub id: CommitId,
    pub parent_ids: Vec<CommitId>,
}

impl Clone for Commit {
    fn clone(&self) -> (r: Self)
        ensures
            r.id@ == self.id@,
            r.parent_ids.deep_view() == self.parent_ids.deep_view(),
    {
        let mut parent_ids: Vec<CommitId> = Vec::new();
        proof {
            assert(parent_ids.deep_view() =~~= self.parent_ids.deep_view().take(0));
        }
        let mut i: usize = 0;
        while i < self.parent_ids.len()
            invariant
                i <= self.parent_ids.len(),
                parent_ids@.len() == i,
                parent_ids.deep_view() == self.parent_ids.deep_view().take(i as int),
            decreases self.parent_ids.len() - i,
        {
            let ghost pre = parent_ids@;
            parent_ids.push(self.parent_ids[i].clone());
            i = i + 1;
            proof {
                let dv = parent_ids.deep_view();
                let full = self.parent_ids.deep_view();
                assert(parent_ids@.len() == i);
                assert forall|j: int| 0 <= j < i implies dv[j] == full[j] by {
                    assert(dv[j] == parent_ids@[j].deep_view());
                    if j < i - 1 {
                        assert(parent_ids@[j] == pre[j]);
                        assert(pre[j].deep_view() == full.take(i - 1)[j]);
                    }
                }
                assert(dv =~= full.take(i as int));
            }
        }
        proof {
            assert(parent_ids.deep_view() =~~= self.parent_ids.deep_view());
        }
        Commit { id: self.id.clone(), parent_ids }
    }
}

impl Commit {
    /// A commit with the given id and parents.
    pub fn new(id: CommitId, parent_ids: Vec<CommitId>) -> (r: Commit)
        ensures
            r.id@ == id@,
            r.parent_ids.deep_view() == parent_ids.deep_view(),
    {
        Commit { id, parent_ids }
    }
}

/// How a hex token fares as a commit-id prefix: no id starts with it, exactly
/// one does, or two or more do.
#[derive(Debug, PartialEq, Eq)]
pub enum PrefixResolution {
    NoMatch,
    SingleMatch(CommitId),
    AmbiguousMatch,
}

/// How one id's hex form stands to a hex token: strictly below it, carrying
/// it as a prefix, or strictly above it, in lexicographic order.
enum HexOrder {
    Below,
    Within,
    Above,
}

/// Compares the hex form of `id` three-way against the token `p`.
fn cmp_hex_prefix(id: &CommitId, p: &Vec<char>) -> (r: HexOrder)
    ensures
        (r is Within) == p@.is_prefix_of(hex_of(id@)),
        (r is Below) == lex_lt(hex_of(id@), p@),
        (r is Above) == (lex_lt(p@, hex_of(id@)) && !p@.is_prefix_of(hex_of(id@))),
{
    let ghost h = hex_of(id@);
    let n = p.len();
    let mut j: usize = 0;
    while j < n
        invariant
            j <= n,
            n == p@.len(),
            h == hex_of(id@),
            j <= 2 * id@.len(),
            h.take(j as int) == p@.take(j as int),
        decreases n - j,
    {
        if j % 2 == 0 && j / 2 == id.bytes.len() {
            proof {
                assert(j == h.len());
                assert(h =~= p@.take(j as int));
                assert(h.is_prefix_of(p@));
                lemma_strict_prefix_lt(h, p@);
                lemma_lex_lt_asym(h, p@);
                assert(!p@.is_prefix_of(h));
            }
            return HexOrder::Below;
        }
        proof {
            assert(j < 2 * id@.len());
        }
        let b = id.bytes[j / 2];
        let nib = if j % 2 == 0 { b / 16 } else { b % 16 };
        let hc = hex_char_of(nib);
        let pc = p[j];
        proof {
            assert(h[j as int] == hc);
        }
        if (hc as u32) < (pc as u32) {
            proof {
                lemma_lex_skip_eq(h, p@, j as int);
                assert(h.skip(j as int)[0] == hc);
                assert(p@.skip(j as int)[0] == pc);
                assert(lex_lt(h.skip(j as int), p@.skip(j as int)));
                assert(lex_lt(h, p@));
                lemma_lex_lt_asym(h, p@);
                if p@.is_prefix_of(h) {
                    assert(p@[j as int] == h.take(p@.len() as int)[j as int]);
                    assert(pc == hc);
                }
            }
            return HexOrder::Below;
        }
        if (hc as u32) > (pc as u32) {
            proof {
                assert(p@.take(j as int) == h.take(j as int));
                lemma_lex_skip_eq(p@, h, j as int);
                assert(p@.skip(j as int)[0] == pc);
                assert(h.skip(j as int)[0] == hc);
                assert(lex_lt(p@.skip(j as int), h.skip(j as int)));
                assert(lex_lt(p@, h));
                lemma_lex_lt_asym(p@, h);
                if p@.is_prefix_of(h) {
                    assert(p@[j as int] == h.take(p@.len() as int)[j as int]);
                    assert(pc == hc);
                }
            }
            return HexOrder::Above;
        }
        proof {
            vstd::utf8::char_u32_cast(hc, hc as u32);
            vstd::utf8::char_u32_cast(pc, pc as u32);
            assert(hc == pc);
            assert(h.take(j + 1) =~= p@.take(j + 1)) by {
                assert forall|i: int| 0 <= i < j + 1 implies
                    #[trigger] h.take(j + 1)[i] == p@.take(j + 1)[i] by {
                    if i < j {
                        assert(h.take(j as int)[i] == p@.take(j as int)[i]);
                    } else {
                        assert(h[i] == hc && p@[i] == pc);
                    }
                }
            }
        }
        j = j + 1;
    }
    proof {
        assert(p@ =~= h.take(n as int));
        assert(p@.is_prefix_of(h));
        lemma_prefix_le(p@, h);
    }
    HexOrder::Within
}

/// The commit store of one immutable repository snapshot: every commit of the
/// repository, among them the distinguished parentless root commit.
pub struct Store {
    pub root_id: CommitId,
    pub commits: Vec<Commit>,
}

impl Store {
    /// Whether a commit with id `id` is in the store.
    pub open spec fn contains_id(self, id: Seq<u8>) -> bool {
        exists|i: int| 0 <= i < self.commits@.len() && (#[trigger] self.commits@[i].id@) == id
    }

    /// The position of the commit with id `id`.
    pub open spec fn index_of(self, id: Seq<u8>) -> int {
        choose|i: int| 0 <= i < self.commits@.len() && (#[trigger] self.commits@[i].id@) == id
    }

    /// The parent ids, in authorship order, of the commit with id `id`.
    pub open spec fn parents_of(self, id: Seq<u8>) -> Seq<Seq<u8>> {
        self.commits@[self.index_of(id)].parent_ids.deep_view()
    }

    /// The store as a mapping from commit id to parent ids.
    pub open spec fn commit_map(self) -> Map<Seq<u8>, Seq<Seq<u8>>> {
        Map::new(|id: Seq<u8>| self.contains_id(id), |id: Seq<u8>| self.parents_of(id))
    }

    /// Internal consistency: the commits are strictly sorted by the hex form
    /// of their ids — the prefix index that makes resolution sub-linear — so
    /// ids are unique; the root commit is present and has no parents; and
    /// every parent pointer leads to a stored commit.
    pub open spec fn wf(self) -> bool {
        &&& forall|i: int, j: int| 0 <= i < j < self.commits@.len() ==>
            lex_lt(hex_of(#[trigger] self.commits@[i].id@),
                hex_of(#[trigger] self.commits@[j].id@))
        &&& forall|i: int, j: int| 0 <= i < j < self.commits@.len() ==>
            (#[trigger] self.commits@[i].id@) != (#[trigger] self.commits@[j].id@)
        &&& self.contains_id(self.root_id@)
        &&& self.parents_of(self.root_id@).len() == 0
        &&& forall|i: int, k: int|
            0 <= i < self.commits@.len() && 0 <= k < self.commits@[i].parent_ids@.len() ==>
                self.contains_id(#[trigger] self.commits@[i].parent_ids@[k]@)
    }

    /// In a store with unique ids, `index_of` returns the one position that
    /// holds a given id.
    pub proof fn lemma_index_of(self, i: int, id: Seq<u8>)
        requires
            forall|a: int, b: int| 0 <= a < b < self.commits@.len() ==>
                (#[trigger] self.commits@[a].id@) != (#[trigger] self.commits@[b].id@),
            0 <= i < self.commits@.len(),
            self.commits@[i].id@ == id,
        ensures
            self.contains_id(id),
            self.index_of(id) == i,
    {
        assert(self.contains_id(id));
        let j = self.index_of(id);
        assert(0 <= j < self.commits@.len() && self.commits@[j].id@ == id);
        if i < j {
            assert(self.commits@[i].id@ != self.commits@[j].id@);
        } else if j < i {
            assert(self.commits@[j].id@ != self.commits@[i].id@);
        }
    }

    /// The store's ids form a finite set.
    pub proof fn lemma_commit_map_dom_finite(self)
        ensures
            self.commit_map().dom().finite(),
    {
        let ids = self.commits@.map_values(|c: Commit| c.id@);
        assert(self.commit_map().dom() =~= ids.to_set()) by {
            assert forall|id: Seq<u8>| self.contains_id(id) implies ids.contains(id) by {
                let i = choose|i: int|
                    0 <= i < self.commits@.len() && (#[trigger] self.commits@[i].id@) == id;
                assert(ids[i] == id);
            }
            assert forall|id: Seq<u8>| ids.contains(id) implies self.contains_id(id) by {
                let i = choose|i: int| 0 <= i < ids.len() && ids[i] == id;
                assert(self.commits@[i].id@ == id);
            }
        }
        vstd::seq_lib::seq_to_set_is_finite::<Seq<u8>>(ids);
    }

    /// A fresh store holding only the root commit.
    pub fn init(root_id: CommitId) -> (s: Store)
        ensures
            s.wf(),
            s.root_id@ == root_id@,
            s.commits@.len() == 1,
            s.contains_id(root_id@),
            s.parents_of(root_id@).len() == 0,
            forall|id: Seq<u8>| s.contains_id(id) <==> id == root_id@,
    {
        let root_commit = Commit { id: root_id.clone(), parent_ids: Vec::new() };
        let mut commits: Vec<Commit> = Vec::new();
        commits.push(root_commit);
        let s = Store { root_id, commits };
        proof {
            assert(s.commits@[0].id@ == s.root_id@);
            assert(s.contains_id(s.root_id@));
            assert forall|id: Seq<u8>| s.contains_id(id) implies id == s.root_id@ by {
                let i = choose|i: int|
                    0 <= i < s.commits@.len() && (#[trigger] s.commits@[i].id@) == id;
                assert(i == 0);
            }
            assert(s.index_of(s.root_id@) == 0);
            assert(s.parents_of(s.root_id@).len() == 0);
        }
        s
    }

    /// The position where a commit whose hex id is `hex_new` belongs:
    /// everything before it is strictly below `hex_new`.
    fn insert_position(&self, hex_new: &Vec<char>) -> (pos: usize)
        requires
            self.wf(),
        ensures
            pos <= self.commits@.len(),
            forall|i: int| 0 <= i < pos ==>
                lex_lt(hex_of(#[trigger] self.commits@[i].id@), hex_new@),
            pos < self.commits@.len() ==>
                !lex_lt(hex_of(self.commits@[pos as int].id@), hex_new@),
    {
        let mut pos: usize = 0;
        while pos < self.commits.len()
            invariant
                pos <= self.commits@.len(),
                self.wf(),
                forall|i: int| 0 <= i < pos ==>
                    lex_lt(hex_of(#[trigger] self.commits@[i].id@), hex_new@),
            decreases self.commits@.len() - pos,
        {
            match cmp_hex_prefix(&self.commits[pos].id, hex_new) {
                HexOrder::Below => {
                    pos = pos + 1;
                },
                HexOrder::Within => {
                    proof {
                        lemma_prefix_le(hex_new@, hex_of(self.commits@[pos as int].id@));
                    }
                    return pos;
                },
                HexOrder::Above => {
                    proof {
                        lemma_lex_lt_asym(hex_new@, hex_of(self.commits@[pos as int].id@));
                    }
                    return pos;
                },
            }
        }
        pos
    }

    /// Adds a commit whose id is new and whose parents are present, keeping
    /// the prefix index sorted.
    pub fn add_commit(&mut self, commit: Commit)
        requires
            old(self).wf(),
            !old(self).contains_id(commit.id@),
            forall|k: int| 0 <= k < commit.parent_ids@.len() ==>
                old(self).contains_id(#[trigger] commit.parent_ids@[k]@),
        ensures
            final(self).wf(),
            final(self).root_id@ == old(self).root_id@,
            final(self).commits@.len() == old(self).commits@.len() + 1,
            forall|id: Seq<u8>| final(self).contains_id(id) <==>
                (old(self).contains_id(id) || id == commit.id@),
            final(self).parents_of(commit.id@) == commit.parent_ids.deep_view(),
            forall|id: Seq<u8>| old(self).contains_id(id) ==>
                final(self).parents_of(id) == old(self).parents_of(id),
    {
        let ghost prev = *self;
        let ghost c = commit;
        let ghost hnew = hex_of(commit.id@);
        let hex_new = commit.id.hex_chars();
        let pos = self.insert_position(&hex_new);
        self.commits.insert(pos, commit);
        proof {
            let len = prev.commits@.len() as int;
            let p = pos as int;
            prev.commits@.insert_ensures(p, c);
            assert(self.commits@ == prev.commits@.insert(p, c));
            assert(forall|i: int| 0 <= i < p ==>
                #[trigger] self.commits@[i] == prev.commits@[i]);
            assert(self.commits@[p] == c);
            assert(forall|i: int| p <= i < len ==>
                #[trigger] self.commits@[i + 1] == prev.commits@[i]);
            assert forall|i: int| p < i < len + 1 implies
                #[trigger] self.commits@[i] == prev.commits@[i - 1] by {
                assert(self.commits@[(i - 1) + 1] == prev.commits@[i - 1]);
            }
            // the new hex differs from every stored one
            assert forall|i: int| 0 <= i < len implies
                hex_of(#[trigger] prev.commits@[i].id@) != hnew by {
                if hex_of(prev.commits@[i].id@) == hnew {
                    lemma_hex_of_injective(prev.commits@[i].id@, c.id@);
                    assert(prev.contains_id(c.id@));
                }
            }
            // sorted
            assert forall|i: int, j: int| 0 <= i < j < self.commits@.len() implies
                lex_lt(hex_of(#[trigger] self.commits@[i].id@),
                    hex_of(#[trigger] self.commits@[j].id@)) by {
                if p < len {
                    assert(!lex_lt(hex_of(prev.commits@[p].id@), hnew));
                    lemma_lex_trichotomy(hex_of(prev.commits@[p].id@), hnew);
                    assert(lex_lt(hnew, hex_of(prev.commits@[p].id@)));
                }
                if j < p {
                    assert(lex_lt(hex_of(prev.commits@[i].id@),
                        hex_of(prev.commits@[j].id@)));
                } else if j == p {
                    assert(lex_lt(hex_of(prev.commits@[i].id@), hnew));
                } else if i < p {
                    if i < j - 1 {
                        assert(lex_lt(hex_of(prev.commits@[i].id@),
                            hex_of(prev.commits@[j - 1].id@)));
                    }
                } else if i == p {
                    if j - 1 > p {
                        lemma_lex_lt_trans(hnew, hex_of(prev.commits@[p].id@),
                            hex_of(prev.commits@[j - 1].id@));
                    }
                } else {
                    assert(lex_lt(hex_of(prev.commits@[i - 1].id@),
                        hex_of(prev.commits@[j - 1].id@)));
                }
            }
            // unique ids follow from the strict order
            assert forall|i: int, j: int| 0 <= i < j < self.commits@.len() implies
                (#[trigger] self.commits@[i].id@) != (#[trigger] self.commits@[j].id@) by {
                if self.commits@[i].id@ == self.commits@[j].id@ {
                    assert(lex_lt(hex_of(self.commits@[i].id@),
                        hex_of(self.commits@[j].id@)));
                    lemma_lex_lt_asym(hex_of(self.commits@[i].id@),
                        hex_of(self.commits@[j].id@));
                }
            }
            // membership
            assert forall|id: Seq<u8>| self.contains_id(id) <==>
                (prev.contains_id(id) || id == c.id@) by {
                if self.contains_id(id) {
                    let i = choose|i: int|
                        0 <= i < self.commits@.len() && (#[trigger] self.commits@[i].id@) == id;
                    if i < p {
                        assert(prev.commits@[i].id@ == id);
                    } else if i > p {
                        assert(prev.commits@[i - 1].id@ == id);
                    }
                }
                if prev.contains_id(id) {
                    let i = choose|i: int|
                        0 <= i < prev.commits@.len() && (#[trigger] prev.commits@[i].id@) == id;
                    if i < p {
                        assert(self.commits@[i].id@ == id);
                    } else {
                        assert(self.commits@[i + 1].id@ == id);
                    }
                }
                if id == c.id@ {
                    assert(self.commits@[p].id@ == id);
                }
            }
            assert(self.wf() && self.parents_of(c.id@) == c.parent_ids.deep_view()) by {
                self.lemma_index_of(p, c.id@);
                let ri = prev.index_of(prev.root_id@);
                assert(0 <= ri < len && prev.commits@[ri].id@ == prev.root_id@);
                prev.lemma_index_of(ri, prev.root_id@);
                if ri < p {
                    self.lemma_index_of(ri, self.root_id@);
                    assert(self.parents_of(self.root_id@) == prev.parents_of(prev.root_id@));
                } else {
                    assert(self.commits@[ri + 1].id@ == prev.root_id@);
                    self.lemma_index_of(ri + 1, self.root_id@);
                    assert(self.parents_of(self.root_id@) == prev.parents_of(prev.root_id@));
                }
            }
            assert forall|id: Seq<u8>| prev.contains_id(id) implies
                self.parents_of(id) == prev.parents_of(id) by {
                let i = choose|i: int|
                    0 <= i < prev.commits@.len() && (#[trigger] prev.commits@[i].id@) == id;
                prev.lemma_index_of(i, id);
                if i < p {
                    self.lemma_index_of(i, id);
                } else {
                    assert(self.commits@[i + 1].id@ == id);
                    self.lemma_index_of(i + 1, id);
                }
            }
        }
    }

    /// The commit with id `id`, where the store holds one.
    pub fn get_commit(&self, id: &CommitId) -> (r: Option<&Commit>)
        requires
            self.wf(),
        ensures
            r is Some <==> self.contains_id(id@),
            r matches Some(c) ==> c.id@ == id@
                && c.parent_ids.deep_view() == self.parents_of(id@),
    {
        let mut i: usize = 0;
        while i < self.commits.len()
            invariant
                i <= self.commits@.len(),
                self.wf(),
                forall|j: int| 0 <= j < i ==> (#[trigger] self.commits@[j].id@) != id@,
            decreases self.commits@.len() - i,
        {
            if self.commits[i].id.eq_id(id) {
                proof {
                    self.lemma_index_of(i as int, id@);
                }
                return Some(&self.commits[i]);
            }
            i = i + 1;
        }
        proof {
            if self.contains_id(id@) {
                let j = choose|j: int|
                    0 <= j < self.commits@.len() && (#[trigger] self.commits@[j].id@) == id@;
                assert(self.commits@[j].id@ != id@);
            }
        }
        None
    }

    /// The distinguished root commit: the parentless sentinel ancestor of
    /// all history.
    pub fn root_commit(&self) -> (r: &Commit)
        requires
            self.wf(),
        ensures
            r.id@ == self.root_id@,
            r.parent_ids.deep_view() == self.parents_of(self.root_id@),
            r.parent_ids@.len() == 0,
    {
        let r = self.get_commit(&self.root_id).unwrap();
        proof {
            assert(r.parent_ids.deep_view().len() == r.parent_ids@.len());
        }
        r
    }

    /// Resolves a hex token as a commit-id prefix: the one commit whose hex
    /// id starts with it, ambiguity where two or more do, or no match. A
    /// binary search over the sorted index, sub-linear in the store's size:
    /// commits carrying the prefix stand contiguously in hex order.
    pub fn resolve_id_prefix(&self, prefix: &Vec<char>) -> (r: PrefixResolution)
        requires
            self.wf(),
        ensures
            (r is NoMatch) <==> (forall|i: int| 0 <= i < self.commits@.len() ==>
                !prefix@.is_prefix_of(hex_of(#[trigger] self.commits@[i].id@))),
            (r matches PrefixResolution::SingleMatch(cid) ==> self.contains_id(cid@)
                && prefix@.is_prefix_of(hex_of(cid@))
                && forall|i: int|
                    0 <= i < self.commits@.len()
                        && prefix@.is_prefix_of(hex_of(#[trigger] self.commits@[i].id@)) ==>
                        self.commits@[i].id@ == cid@),
            (r is AmbiguousMatch) <==> (exists|i: int, j: int| 0 <= i < j < self.commits@.len()
                && prefix@.is_prefix_of(hex_of(#[trigger] self.commits@[i].id@))
                && prefix@.is_prefix_of(hex_of(#[trigger] self.commits@[j].id@))),
    {
        let n = self.commits.len();
        let mut lo: usize = 0;
        let mut hi: usize = n;
        while lo < hi
            invariant
                lo <= hi <= n,
                n == self.commits@.len(),
                self.wf(),
                forall|i: int| 0 <= i < lo ==>
                    lex_lt(hex_of(#[trigger] self.commits@[i].id@), prefix@),
                forall|i: int| hi <= i < n ==>
                    !lex_lt(hex_of(#[trigger] self.commits@[i].id@), prefix@),
            decreases hi - lo,
        {
            let mid = lo + (hi - lo) / 2;
            match cmp_hex_prefix(&self.commits[mid].id, prefix) {
                HexOrder::Below => {
                    proof {
                        assert forall|i: int| 0 <= i < mid + 1 implies
                            lex_lt(hex_of(#[trigger] self.commits@[i].id@), prefix@) by {
                            if i < mid {
                                lemma_lex_lt_trans(hex_of(self.commits@[i].id@),
                                    hex_of(self.commits@[mid as int].id@), prefix@);
                            }
                        }
                    }
                    lo = mid + 1;
                },
                HexOrder::Within => {
                    proof {
                        lemma_prefix_le(prefix@, hex_of(self.commits@[mid as int].id@));
                        assert forall|i: int| mid <= i < n implies
                            !lex_lt(hex_of(#[trigger] self.commits@[i].id@), prefix@) by {
                            if i > mid && lex_lt(hex_of(self.commits@[i].id@), prefix@) {
                                lemma_lex_lt_trans(hex_of(self.commits@[mid as int].id@),
                                    hex_of(self.commits@[i].id@), prefix@);
                            }
                        }
                    }
                    hi = mid;
                },
                HexOrder::Above => {
                    proof {
                        lemma_lex_lt_asym(prefix@, hex_of(self.commits@[mid as int].id@));
                        assert forall|i: int| mid <= i < n implies
                            !lex_lt(hex_of(#[trigger] self.commits@[i].id@), prefix@) by {
                            if i > mid && lex_lt(hex_of(self.commits@[i].id@), prefix@) {
                                lemma_lex_lt_trans(hex_of(self.commits@[mid as int].id@),
                                    hex_of(self.commits@[i].id@), prefix@);
                            }
                        }
                    }
                    hi = mid;
                },
            }
        }
        proof {
            assert forall|i: int| 0 <= i < lo implies
                !prefix@.is_prefix_of(hex_of(#[trigger] self.commits@[i].id@)) by {
                if prefix@.is_prefix_of(hex_of(self.commits@[i].id@)) {
                    lemma_prefix_le(prefix@, hex_of(self.commits@[i].id@));
                }
            }
        }
        if lo == n {
            return PrefixResolution::NoMatch;
        }
        match cmp_hex_prefix(&self.commits[lo].id, prefix) {
            HexOrder::Within => {
                let mut second = false;
                if lo + 1 < n {
                    match cmp_hex_prefix(&self.commits[lo + 1].id, prefix) {
                        HexOrder::Within => {
                            second = true;
                        },
                        _ => {},
                    }
                }
                if second {
                    return PrefixResolution::AmbiguousMatch;
                }
                proof {
                    let l = lo as int;
                    assert forall|i: int|
                        0 <= i < n
                            && prefix@.is_prefix_of(hex_of(#[trigger] self.commits@[i].id@))
                        implies self.commits@[i].id@ == self.commits@[l].id@ by {
                        if i > l {
                            assert(l + 1 < n);
                            lemma_lex_lt_asym(hex_of(self.commits@[l].id@),
                                hex_of(self.commits@[l + 1].id@));
                            if i > l + 1 {
                                lemma_lex_lt_asym(hex_of(self.commits@[l + 1].id@),
                                    hex_of(self.commits@[i].id@));
                            }
                            lemma_prefix_sandwich(prefix@, hex_of(self.commits@[l].id@),
                                hex_of(self.commits@[l + 1].id@),
                                hex_of(self.commits@[i].id@));
                        }
                    }
                    assert(!(exists|i: int, j: int| 0 <= i < j < self.commits@.len()
                        && prefix@.is_prefix_of(hex_of(#[trigger] self.commits@[i].id@))
                        && prefix@.is_prefix_of(hex_of(
                            #[trigger] self.commits@[j].id@)))) by {
                        if exists|i: int, j: int| 0 <= i < j < self.commits@.len()
                            && prefix@.is_prefix_of(hex_of(#[trigger] self.commits@[i].id@))
                            && prefix@.is_prefix_of(hex_of(
                                #[trigger] self.commits@[j].id@)) {
                            let (i, j) = choose|i: int, j: int|
                                0 <= i < j < self.commits@.len()
                                    && prefix@.is_prefix_of(hex_of(
                                        #[trigger] self.commits@[i].id@))
                                    && prefix@.is_prefix_of(hex_of(
                                        #[trigger] self.commits@[j].id@));
                            assert(self.commits@[i].id@ != self.commits@[j].id@);
                        }
                    }
                    self.lemma_index_of(l, self.commits@[l].id@);
                }
                return PrefixResolution::SingleMatch(self.commits[lo].id.clone());
            },
            HexOrder::Above => {
                proof {
                    let l = lo as int;
                    assert(prefix@ =~= prefix@.take(prefix@.len() as int));
                    assert(prefix@.is_prefix_of(prefix@));
                    assert forall|i: int| 0 <= i < n implies
                        !prefix@.is_prefix_of(hex_of(#[trigger] self.commits@[i].id@)) by {
                        if i > l && prefix@.is_prefix_of(hex_of(self.commits@[i].id@)) {
                            lemma_lex_lt_asym(hex_of(self.commits@[l].id@),
                                hex_of(self.commits@[i].id@));
                            lemma_prefix_sandwich(prefix@, prefix@,
                                hex_of(self.commits@[l].id@),
                                hex_of(self.commits@[i].id@));
                        }
                    }
                }
                return PrefixResolution::NoMatch;
            },
            HexOrder::Below => {
                proof {
                    assert(false);
                }
                return PrefixResolution::NoMatch;
            },
        }
    }
}

} // verus!
