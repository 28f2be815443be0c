//! Repository state: the durable pointers that tie snapshots into a history.
//! A repository holds a current branch name and a table from branch name to
//! the branch's tip commit; commits and trees themselves live in the object
//! store. The pointer state is modelled here as plain values, and every
//! transition says exactly how the new pointers relate to the old ones.

use vstd::prelude::*;

use vstd::string::StringSliceAdditionalSpecFns;
use vstd::utf8::encode_utf8;

use crate::codec::{bytes_to_string, tree_chars};
use crate::commit::{authors_sorted, commit_chars, commit_wf, Commit};
use crate::diff::{diff_describes, diff_wf, SnapShotDifference};
use crate::errors::{YsError, YsErrorKind};
use crate::ignore::IgnoreRules;
use crate::object_id::{digest_of, AuthorID, ObjectID};
use crate::store::{LocalObjectStore, MemoryObjectStore};
use crate::text::{bytes_of_hex, hex_of, is_hex_char};
use crate::tree::{tree_wf, SnapShotTree};

verus! {

broadcast use vstd::std_specs::vec::group_vec_axioms;

/// The durable record of one branch pointer: the tip's identifier as
/// hexadecimal text.
#[derive(Debug)]
pub struct BranchJson {
    /// The hexadecimal text of the branch tip's identifier.
    pub tree_id: String,
}

impl BranchJson {
    /// The record of a tip.
    pub fn of(id: &ObjectID) -> (r: Self)
        ensures
            r.tree_id@ == hex_of(id@),
    {
        BranchJson { tree_id: id.to_text() }
    }

    /// The identifier a record points at; malformed text is rejected as an
    /// invalid identifier.
    pub fn object_id(&self) -> (r: Result<ObjectID, YsError>)
        ensures
            match r {
                Ok(id) => id.well_formed() && self.tree_id@.len() == 64 && id@ == bytes_of_hex(
                    self.tree_id@,
                ),
                Err(e) => e.kind is InvalidID && (self.tree_id@.len() != 64 || exists|i: int|
                    0 <= i < self.tree_id@.len() && !is_hex_char(#[trigger] self.tree_id@[i])),
            },
    {
        ObjectID::from_text(self.tree_id.as_str())
    }
}

/// What a snapshot was taken for.
#[derive(Copy, Clone, Debug)]
pub enum SnapShotKind {
    /// The first snapshot of a repository.
    Initialization,
    /// An ordinary recorded change.
    Fix,
    /// A snapshot taken while trying something out.
    Test,
}

/// The tip recorded under `name` in a branch table, if any.
pub open spec fn branch_lookup(bs: Seq<(String, ObjectID)>, name: Seq<char>) -> Option<ObjectID>
    decreases bs.len(),
{
    if bs.len() == 0 {
        None
    } else if bs[0].0@ == name {
        Some(bs[0].1)
    } else {
        branch_lookup(bs.drop_first(), name)
    }
}

/// Looking a name up in a concatenated table first searches the left part.
pub proof fn lemma_branch_lookup_append(
    a: Seq<(String, ObjectID)>,
    b: Seq<(String, ObjectID)>,
    name: Seq<char>,
)
    ensures
        branch_lookup(a + b, name) == (match branch_lookup(a, name) {
            Some(id) => Some(id),
            None => branch_lookup(b, name),
        }),
    decreases a.len(),
{
    if a.len() == 0 {
        assert(a + b =~= b);
    } else {
        assert((a + b).drop_first() =~= a.drop_first() + b);
        assert((a + b)[0] == a[0]);
        lemma_branch_lookup_append(a.drop_first(), b, name);
    }
}

/// Splits a lookup at one position of the table.
pub proof fn lemma_branch_lookup_split_at(bs: Seq<(String, ObjectID)>, j: int, name: Seq<char>)
    requires
        0 <= j < bs.len(),
    ensures
        branch_lookup(bs, name) == (match branch_lookup(bs.take(j), name) {
            Some(id) => Some(id),
            None => if bs[j].0@ == name {
                Some(bs[j].1)
            } else {
                branch_lookup(bs.skip(j + 1), name)
            },
        }),
{
    assert(bs =~= bs.take(j) + seq![bs[j]] + bs.skip(j + 1));
    lemma_branch_lookup_append(bs.take(j) + seq![bs[j]], bs.skip(j + 1), name);
    lemma_branch_lookup_append(bs.take(j), seq![bs[j]], name);
    assert(seq![bs[j]].drop_first() =~= Seq::<(String, ObjectID)>::empty());
    assert(seq![bs[j]].len() == 1);
    assert(seq![bs[j]][0] == bs[j]);
    assert(branch_lookup(Seq::<(String, ObjectID)>::empty(), name) is None);
}

/// A name that no table row carries is not found.
pub proof fn lemma_branch_lookup_none(bs: Seq<(String, ObjectID)>, name: Seq<char>)
    requires
        forall|i: int| 0 <= i < bs.len() ==> (#[trigger] bs[i].0)@ != name,
    ensures
        branch_lookup(bs, name) is None,
    decreases bs.len(),
{
    if bs.len() > 0 {
        assert forall|i: int|
            0 <= i < bs.drop_first().len() implies (#[trigger] bs.drop_first()[i].0)@ != name by {
            assert(bs.drop_first()[i] == bs[i + 1]);
        }
        lemma_branch_lookup_none(bs.drop_first(), name);
    }
}

/// Whether the tree `t` is what the store holds for the named branch: the
/// branch points at a stored commit whose tree field names the stored text of
/// `t`.
pub open spec fn tree_stored_at(
    store: MemoryObjectStore,
    bs: Seq<(String, ObjectID)>,
    branch: Seq<char>,
    t: SnapShotTree,
) -> bool {
    branch_lookup(bs, branch) matches Some(tip) && store@.contains_key(tip@) && (exists|c: Commit|
        #[trigger] bytes_decode_commit(store@[tip@], c) && store@.contains_key(c.tree@)
            && store@[c.tree@] == encode_utf8(tree_chars(t)))
}

/// Whether `bytes` are the stored form of the well-formed commit `c`.
pub open spec fn bytes_decode_commit(bytes: Seq<u8>, c: Commit) -> bool {
    commit_wf(c) && bytes == encode_utf8(commit_chars(c))
}

/// Whether `bytes` are the stored form of the well-formed tree `t`.
pub open spec fn bytes_decode_tree(bytes: Seq<u8>, t: SnapShotTree) -> bool {
    tree_wf(t) && bytes == encode_utf8(tree_chars(t))
}

/// The named branch resolves, but following its chain reaches `id` as a key
/// the store does not hold: the tip itself, or the tree that the tip's
/// stored commit names.
pub open spec fn branch_chain_missing_object(
    store: MemoryObjectStore,
    bs: Seq<(String, ObjectID)>,
    branch: Seq<char>,
    id: Seq<u8>,
) -> bool {
    branch_lookup(bs, branch) matches Some(tip) && ((!store@.contains_key(tip@) && id == tip@) || (
    store@.contains_key(tip@) && (exists|c: Commit|
        #[trigger] bytes_decode_commit(store@[tip@], c)) && (forall|c: Commit|
        #[trigger] bytes_decode_commit(store@[tip@], c) ==> !store@.contains_key(c.tree@) && id
            == c.tree@)))
}

/// The named branch resolves and every referenced object is present, but a
/// stored object along its chain is not the text of any well-formed value.
pub open spec fn branch_chain_undecodable(
    store: MemoryObjectStore,
    bs: Seq<(String, ObjectID)>,
    branch: Seq<char>,
) -> bool {
    branch_lookup(bs, branch) matches Some(tip) && store@.contains_key(tip@) && ((forall|c: Commit|
        !#[trigger] bytes_decode_commit(store@[tip@], c)) || ((exists|c: Commit|
        #[trigger] bytes_decode_commit(store@[tip@], c)) && (forall|c: Commit|
        #[trigger] bytes_decode_commit(store@[tip@], c) ==> store@.contains_key(c.tree@) && (
        forall|t: SnapShotTree| !#[trigger] bytes_decode_tree(store@[c.tree@], t)))))
}

/// The named branch resolves and its whole chain is intact: the tip is a
/// stored, decodable commit, and the tree it names is stored and decodable.
pub open spec fn branch_chain_intact(
    store: MemoryObjectStore,
    bs: Seq<(String, ObjectID)>,
    branch: Seq<char>,
) -> bool {
    branch_lookup(bs, branch) matches Some(tip) && store@.contains_key(tip@) && (exists|c: Commit|
        #[trigger] bytes_decode_commit(store@[tip@], c) && store@.contains_key(c.tree@) && (
        exists|t: SnapShotTree| #[trigger] bytes_decode_tree(store@[c.tree@], t)))
}

/// A branch whose tree is stored has an intact chain.
pub proof fn lemma_stored_implies_intact(
    store: MemoryObjectStore,
    bs: Seq<(String, ObjectID)>,
    branch: Seq<char>,
    t: SnapShotTree,
)
    requires
        tree_wf(t),
        tree_stored_at(store, bs, branch, t),
    ensures
        branch_chain_intact(store, bs, branch),
{
    let tip = branch_lookup(bs, branch)->Some_0;
    let c = choose|c: Commit|
        #[trigger] bytes_decode_commit(store@[tip@], c) && store@.contains_key(c.tree@)
            && store@[c.tree@] == encode_utf8(tree_chars(t));
    assert(bytes_decode_tree(store@[c.tree@], t));
}

/// Every tip in a branch table holds a full digest.
pub open spec fn branches_wf(bs: Seq<(String, ObjectID)>) -> bool {
    forall|i: int| 0 <= i < bs.len() ==> (#[trigger] bs[i]).1.well_formed()
}

/// A repository's durable pointer state: where it lives, which branch is
/// current, what every branch points at, and what is ignored when its working
/// directory is walked.
#[derive(Debug)]
pub struct DotYuanShen {
    /// The repository's directory, as path text.
    pub root: String,
    /// The current branch's name.
    pub branch: String,
    /// The branch table: branch name to tip commit identifier.
    pub branches: Vec<(String, ObjectID)>,
    /// The rules applied while walking the working directory.
    pub ignores: IgnoreRules,
}

impl DotYuanShen {
    /// A repository opened from its loaded durable facts.
    pub fn open(
        root: String,
        branch: String,
        branches: Vec<(String, ObjectID)>,
        ignores: IgnoreRules,
    ) -> (r: Self)
        requires
            branches_wf(branches@),
        ensures
            r.root@ == root@,
            r.branch@ == branch@,
            r.branches@ == branches@,
            r.ignores == ignores,
            branches_wf(r.branches@),
    {
        DotYuanShen { root, branch, branches, ignores }
    }

    /// The repository's directory.
    pub fn root(&self) -> (r: &String)
        ensures
            r@ == self.root@,
    {
        &self.root
    }

    /// The current branch's name.
    pub fn get_branch(&self) -> (r: &String)
        ensures
            r@ == self.branch@,
    {
        &self.branch
    }

    /// Makes `new` the current branch name. Only the pointer changes.
    pub fn set_branch(&mut self, new: String)
        ensures
            final(self).branch@ == new@,
            final(self).root == old(self).root,
            final(self).branches == old(self).branches,
            final(self).ignores == old(self).ignores,
    {
        self.branch = new;
    }

    /// The tip of a named branch; a branch without a pointer entry is
    /// reported as missing, carrying the name.
    pub fn get_branch_snapshot_id(&self, branch: &str) -> (r: Result<ObjectID, YsError>)
        requires
            branches_wf(self.branches@),
        ensures
            match r {
                Ok(id) => branch_lookup(self.branches@, branch@) matches Some(t) && id@ == t@
                    && id.well_formed(),
                Err(e) => branch_lookup(self.branches@, branch@) is None && (e.kind
                    matches YsErrorKind::MissingBranch { name } && name@ == branch@),
            },
    {
        let mut i: usize = 0;
        proof {
            assert(self.branches@.skip(0) =~= self.branches@);
        }
        while i < self.branches.len()
            invariant
                i <= self.branches@.len(),
                branches_wf(self.branches@),
                branch_lookup(self.branches@, branch@) == branch_lookup(
                    self.branches@.skip(i as int),
                    branch@,
                ),
            decreases self.branches@.len() - i,
        {
            proof {
                assert(self.branches@.skip(i as int).drop_first() =~= self.branches@.skip(i + 1));
                assert(self.branches@.skip(i as int)[0] == self.branches@[i as int]);
            }
            let order = crate::text::str_compare(self.branches[i].0.as_str(), branch);
            if order == 0 {
                return Ok(self.branches[i].1.duplicate());
            }
            proof {
                crate::text::lemma_lex_trichotomy(self.branches@[i as int].0@, branch@);
            }
            i = i + 1;
        }
        proof {
            assert(self.branches@.skip(i as int) =~= Seq::<(String, ObjectID)>::empty());
        }
        Err(YsError::missing_branch(branch.to_owned()))
    }

    /// Whether a branch has a pointer entry.
    pub fn branch_exists(&self, branch: &str) -> (r: bool)
        requires
            branches_wf(self.branches@),
        ensures
            r == (branch_lookup(self.branches@, branch@) is Some),
    {
        match self.get_branch_snapshot_id(branch) {
            Ok(_) => true,
            Err(_) => false,
        }
    }

    /// Points the named branch at `id`: an existing entry is replaced, any
    /// other entry is untouched, a new entry is appended.
    pub fn set_branch_snapshot_id(&mut self, branch: &str, id: ObjectID)
        requires
            branches_wf(old(self).branches@),
            id.well_formed(),
        ensures
            branches_wf(final(self).branches@),
            branch_lookup(final(self).branches@, branch@) matches Some(t) && t@ == id@,
            forall|n: Seq<char>|
                n != branch@ ==> branch_lookup(final(self).branches@, n) == branch_lookup(
                    old(self).branches@,
                    n,
                ),
            final(self).branch == old(self).branch,
            final(self).root == old(self).root,
            final(self).ignores == old(self).ignores,
    {
        let ghost bs0 = self.branches@;
        let mut j: usize = 0;
        while j < self.branches.len() && crate::text::str_compare(
            self.branches[j].0.as_str(),
            branch,
        ) != 0
            invariant
                self.branches@ == bs0,
                j <= bs0.len(),
                forall|k: int| 0 <= k < j ==> (#[trigger] bs0[k].0)@ != branch@,
            decreases bs0.len() - j,
        {
            proof {
                crate::text::lemma_lex_trichotomy(self.branches@[j as int].0@, branch@);
            }
            j = j + 1;
        }
        if j < self.branches.len() {
            proof {
                assert(bs0[j as int].0@ == branch@);
            }
            let name = self.branches[j].0.clone();
            self.branches[j] = (name, id);
            proof {
                let bs1 = self.branches@;
                assert(bs1 == bs0.update(j as int, bs1[j as int]));
                assert(bs1[j as int].0@ == branch@);
                assert forall|a: int| 0 <= a < bs1.len() implies (
                #[trigger] bs1[a]).1.well_formed() by {
                    if a != j {
                        assert(bs1[a] == bs0[a]);
                    }
                }
                assert(bs1[j as int].1@ == id@);
                lemma_branch_lookup_split_at(bs1, j as int, branch@);
                assert forall|k: int| 0 <= k < bs1.take(j as int).len() implies (
                #[trigger] bs1.take(j as int)[k].0)@ != branch@ by {
                    assert(bs1.take(j as int)[k] == bs0[k]);
                }
                lemma_branch_lookup_none(bs1.take(j as int), branch@);
                assert(branch_lookup(bs1, branch@) == Some(bs1[j as int].1));
                assert forall|n: Seq<char>| n != branch@ implies branch_lookup(bs1, n)
                    == branch_lookup(bs0, n) by {
                    lemma_branch_lookup_split_at(bs0, j as int, n);
                    lemma_branch_lookup_split_at(bs1, j as int, n);
                    assert(bs1.take(j as int) =~= bs0.take(j as int));
                    assert(bs1.skip(j + 1) =~= bs0.skip(j + 1));
                    assert(bs0[j as int].0@ == branch@);
                }
            }
        } else {
            let name = branch.to_owned();
            let ghost pushed = (name, id);
            self.branches.push((name, id));
            proof {
                let bs1 = self.branches@;
                assert(bs1 =~= bs0.push(pushed));
                assert forall|a: int| 0 <= a < bs1.len() implies (
                #[trigger] bs1[a]).1.well_formed() by {
                    if a < bs0.len() {
                        assert(bs1[a] == bs0[a]);
                    } else {
                        assert(bs1[a] == pushed);
                    }
                }
                lemma_branch_lookup_append(bs0, seq![pushed], branch@);
                assert(seq![pushed].drop_first() =~= Seq::<(String, ObjectID)>::empty());
                assert(seq![pushed][0] == pushed);
                lemma_branch_lookup_none(bs0, branch@);
                assert(branch_lookup(seq![pushed], branch@) == Some(id));
                assert(bs1 =~= bs0 + seq![pushed]);
                assert forall|n: Seq<char>| n != branch@ implies branch_lookup(bs1, n)
                    == branch_lookup(bs0, n) by {
                    lemma_branch_lookup_append(bs0, seq![pushed], n);
                    assert(seq![pushed].drop_first() =~= Seq::<(String, ObjectID)>::empty());
                    assert(seq![pushed].len() == 1);
                    assert(seq![pushed][0] == pushed);
                    assert(pushed.0@ == branch@);
                    assert(branch_lookup(Seq::<(String, ObjectID)>::empty(), n) is None);
                    assert(branch_lookup(seq![pushed], n) is None);
                }
            }
        }
    }

    /// The tip of the current branch.
    pub fn current_snapshot_id(&self) -> (r: Result<ObjectID, YsError>)
        requires
            branches_wf(self.branches@),
        ensures
            match r {
                Ok(id) => branch_lookup(self.branches@, self.branch@) matches Some(t) && id@
                    == t@ && id.well_formed(),
                Err(e) => branch_lookup(self.branches@, self.branch@) is None && (e.kind
                    matches YsErrorKind::MissingBranch { name } && name@ == self.branch@),
            },
    {
        let current = self.branch.clone();
        self.get_branch_snapshot_id(current.as_str())
    }

    /// Creates a branch pointing at the current tip, if no branch of that
    /// name exists yet; an existing branch is left untouched. Fails only when
    /// the current branch itself has no tip to copy.
    pub fn create_branch(&mut self, new_branch: &str) -> (r: Result<ObjectID, YsError>)
        requires
            branches_wf(old(self).branches@),
        ensures
            branches_wf(final(self).branches@),
            final(self).branch == old(self).branch,
            final(self).root == old(self).root,
            final(self).ignores == old(self).ignores,
            match r {
                Ok(id) => id.well_formed() && (branch_lookup(final(self).branches@, new_branch@)
                    matches Some(t) && t@ == id@) && (if branch_lookup(
                    old(self).branches@,
                    new_branch@,
                ) is Some {
                    final(self).branches@ == old(self).branches@
                } else {
                    branch_lookup(old(self).branches@, old(self).branch@) matches Some(tip)
                        && id@ == tip@ && (forall|n: Seq<char>|
                        n != new_branch@ ==> branch_lookup(final(self).branches@, n)
                            == branch_lookup(old(self).branches@, n))
                }),
                Err(e) => branch_lookup(old(self).branches@, new_branch@) is None
                    && branch_lookup(old(self).branches@, old(self).branch@) is None && (e.kind
                    matches YsErrorKind::MissingBranch { name } && name@ == old(self).branch@)
                    && final(self).branches@ == old(self).branches@,
            },
    {
        match self.get_branch_snapshot_id(new_branch) {
            Ok(id) => {
                return Ok(id);
            },
            Err(_) => {
            },
        }
        let tip = match self.current_snapshot_id() {
            Ok(tip) => tip,
            Err(e) => {
                return Err(e);
            },
        };
        let pointer = tip.duplicate();
        self.set_branch_snapshot_id(new_branch, pointer);
        Ok(tip)
    }

    /// Switches to the named branch: a branch that did not exist is first
    /// created pointing at the current tip, then made current. Only pointers
    /// change; nothing touches the working directory.
    pub fn checkout(&mut self, branch: &str) -> (r: Result<(), YsError>)
        requires
            branches_wf(old(self).branches@),
        ensures
            branches_wf(final(self).branches@),
            final(self).root == old(self).root,
            final(self).ignores == old(self).ignores,
            match r {
                Ok(_) => final(self).branch@ == branch@ && (if branch_lookup(
                    old(self).branches@,
                    branch@,
                ) is Some {
                    final(self).branches@ == old(self).branches@
                } else {
                    branch_lookup(old(self).branches@, old(self).branch@) matches Some(tip)
                        && (branch_lookup(final(self).branches@, branch@) matches Some(t) && t@
                        == tip@) && (forall|n: Seq<char>|
                        n != branch@ ==> branch_lookup(final(self).branches@, n)
                            == branch_lookup(old(self).branches@, n))
                }),
                Err(e) => final(self).branch == old(self).branch && final(self).branches@ == old(
                    self,
                ).branches@ && branch_lookup(old(self).branches@, branch@) is None
                    && branch_lookup(old(self).branches@, old(self).branch@) is None && (e.kind
                    matches YsErrorKind::MissingBranch { name: nm } && nm@ == old(self).branch@),
            },
    {
        match self.create_branch(branch) {
            Ok(_) => {
            },
            Err(e) => {
                return Err(e);
            },
        }
        self.set_branch(branch.to_owned());
        Ok(())
    }

    /// Records a snapshot on the current branch: stores the tree, stores a
    /// commit whose one parent is the current tip, and points the current
    /// branch at the new commit. Fails exactly when the current branch has no
    /// tip to follow, and then changes nothing.
    pub fn commit_snapshot(
        &mut self,
        store: &mut MemoryObjectStore,
        tree: &SnapShotTree,
        message: String,
        authors: Vec<AuthorID>,
        timestamp: u64,
    ) -> (r: Result<ObjectID, YsError>)
        requires
            branches_wf(old(self).branches@),
            tree_wf(*tree),
            authors_sorted(authors@),
            forall|i: int| 0 <= i < authors@.len() ==> (#[trigger] authors@[i]).well_formed(),
            crate::store::store_entries_wf(old(store).entries@),
        ensures
            branches_wf(final(self).branches@),
            crate::store::store_entries_wf(final(store).entries@),
            final(self).branch == old(self).branch,
            final(self).root == old(self).root,
            final(self).ignores == old(self).ignores,
            match r {
                Ok(cid) => cid.well_formed() && (exists|c: Commit|
                    {
                        &&& commit_wf(c)
                        &&& c.tree@ == digest_of(encode_utf8(tree_chars(*tree)))
                        &&& c.parents@.len() == 1
                        &&& branch_lookup(old(self).branches@, old(self).branch@)
                            matches Some(tip0) && c.parents@[0]@ == tip0@
                        &&& c.message@ == message@
                        &&& c.authors@ == authors@
                        &&& c.timestamp == timestamp
                        &&& cid@ == digest_of(encode_utf8(#[trigger] commit_chars(c)))
                        &&& final(store)@ =~= old(store)@.insert(
                            digest_of(encode_utf8(tree_chars(*tree))),
                            encode_utf8(tree_chars(*tree)),
                        ).insert(cid@, encode_utf8(commit_chars(c)))
                    }) && (branch_lookup(final(self).branches@, old(self).branch@)
                    matches Some(t) && t@ == cid@) && (forall|n: Seq<char>|
                    n != old(self).branch@ ==> branch_lookup(final(self).branches@, n)
                        == branch_lookup(old(self).branches@, n)),
                Err(e) => branch_lookup(old(self).branches@, old(self).branch@) is None && (e.kind
                    matches YsErrorKind::MissingBranch { name } && name@ == old(self).branch@)
                    && final(self).branches@ == old(self).branches@ && final(store)@ == old(
                    store,
                )@,
            },
    {
        let parent = match self.current_snapshot_id() {
            Ok(tip) => tip,
            Err(e) => {
                return Err(e);
            },
        };
        let tree_text = tree.encode();
        let tree_bytes = tree_text.as_str().as_bytes_vec();
        let tree_id = match store.put(tree_bytes.as_slice()) {
            Ok(id) => id,
            Err(e) => {
                return Err(e);
            },
        };
        let mut parents: Vec<ObjectID> = Vec::new();
        parents.push(parent);
        let commit = Commit { tree: tree_id, parents, message, authors, timestamp };
        proof {
            assert(commit.parents@.len() == 1);
            assert(commit_wf(commit));
        }
        let commit_text = commit.encode();
        let commit_bytes = commit_text.as_str().as_bytes_vec();
        let cid = match store.put(commit_bytes.as_slice()) {
            Ok(id) => id,
            Err(e) => {
                return Err(e);
            },
        };
        let current = self.branch.clone();
        let pointer = cid.duplicate();
        self.set_branch_snapshot_id(current.as_str(), pointer);
        proof {
            assert(commit.tree@ == digest_of(encode_utf8(tree_chars(*tree))));
            assert(cid@ == digest_of(encode_utf8(commit_chars(commit))));
            assert(commit_wf(commit) && commit.parents@.len() == 1 && commit.message@ == message@
                && commit.authors@ == authors@ && commit.timestamp == timestamp);
            assert(final(store)@ =~= old(store)@.insert(
                digest_of(encode_utf8(tree_chars(*tree))),
                encode_utf8(tree_chars(*tree)),
            ).insert(cid@, encode_utf8(commit_chars(commit))));
        }
        Ok(cid)
    }

    /// The difference between two branches: each branch's tip commit is
    /// loaded from the store, each commit's tree is loaded, and the trees are
    /// compared. Comparison succeeds exactly when both branches' chains are
    /// intact; otherwise the first broken chain, taking `branch_a` first, is
    /// reported: a branch without a pointer entry by name, a key the store
    /// lacks as a missing object carrying exactly that identifier, and
    /// stored bytes that are no well-formed value's text as undecodable.
    pub fn difference_between(
        &self,
        store: &MemoryObjectStore,
        branch_a: &str,
        branch_b: &str,
    ) -> (r: Result<SnapShotDifference, YsError>)
        requires
            branches_wf(self.branches@),
            crate::store::store_entries_wf(store.entries@),
        ensures
            match r {
                Ok(d) => diff_wf(d) && (exists|ta: SnapShotTree, tb: SnapShotTree|
                    {
                        &&& tree_wf(ta)
                        &&& tree_wf(tb)
                        &&& tree_stored_at(*store, self.branches@, branch_a@, ta)
                        &&& tree_stored_at(*store, self.branches@, branch_b@, tb)
                        &&& #[trigger] diff_describes(ta, tb, d)
                    }),
                Err(e) => match e.kind {
                    YsErrorKind::MissingBranch { name } => (name@ == branch_a@ && branch_lookup(
                        self.branches@,
                        branch_a@,
                    ) is None) || (branch_chain_intact(*store, self.branches@, branch_a@)
                        && name@ == branch_b@ && branch_lookup(
                        self.branches@,
                        branch_b@,
                    ) is None),
                    YsErrorKind::MissingObject { id } => branch_chain_missing_object(
                        *store,
                        self.branches@,
                        branch_a@,
                        id@,
                    ) || (branch_chain_intact(*store, self.branches@, branch_a@)
                        && branch_chain_missing_object(*store, self.branches@, branch_b@, id@)),
                    YsErrorKind::Serialization { .. } => branch_chain_undecodable(
                        *store,
                        self.branches@,
                        branch_a@,
                    ) || (branch_chain_intact(*store, self.branches@, branch_a@)
                        && branch_chain_undecodable(*store, self.branches@, branch_b@)),
                    _ => false,
                },
            },
    {
        let tree_a = match self.load_branch_tree(store, branch_a) {
            Ok(t) => t,
            Err(e) => {
                return Err(e);
            },
        };
        proof {
            lemma_stored_implies_intact(*store, self.branches@, branch_a@, tree_a);
        }
        let tree_b = match self.load_branch_tree(store, branch_b) {
            Ok(t) => t,
            Err(e) => {
                return Err(e);
            },
        };
        Ok(tree_a.difference(&tree_b))
    }

    /// Loads the snapshot tree of a branch's tip commit from the store. Each
    /// outcome happens exactly when its condition holds of the pointer state
    /// and the store: a branch without a pointer entry is missing by name; a
    /// key the chain reaches but the store lacks is a missing object carrying
    /// exactly that identifier; stored bytes that are no well-formed value's
    /// text fail to decode; and an intact chain always loads.
    pub fn load_branch_tree(&self, store: &MemoryObjectStore, branch: &str) -> (r: Result<
        SnapShotTree,
        YsError,
    >)
        requires
            branches_wf(self.branches@),
            crate::store::store_entries_wf(store.entries@),
        ensures
            match r {
                Ok(t) => tree_wf(t) && tree_stored_at(*store, self.branches@, branch@, t),
                Err(e) => match e.kind {
                    YsErrorKind::MissingBranch { name } => name@ == branch@ && branch_lookup(
                        self.branches@,
                        branch@,
                    ) is None,
                    YsErrorKind::MissingObject { id } => branch_chain_missing_object(
                        *store,
                        self.branches@,
                        branch@,
                        id@,
                    ),
                    YsErrorKind::Serialization { .. } => branch_chain_undecodable(
                        *store,
                        self.branches@,
                        branch@,
                    ),
                    _ => false,
                },
            },
    {
        let tip = match self.get_branch_snapshot_id(branch) {
            Ok(tip) => tip,
            Err(e) => {
                return Err(e);
            },
        };
        let ghost tipv = branch_lookup(self.branches@, branch@)->Some_0;
        let commit_bytes = match store.get(&tip) {
            Ok(v) => v,
            Err(e) => {
                proof {
                    assert(!store@.contains_key(tipv@));
                }
                return Err(e);
            },
        };
        let ghost commit_bytes_view = commit_bytes@;
        let commit_text = match bytes_to_string(commit_bytes) {
            Some(s) => s,
            None => {
                proof {
                    assert forall|c: Commit| !#[trigger] bytes_decode_commit(
                        store@[tipv@],
                        c,
                    ) by {
                        if bytes_decode_commit(commit_bytes_view, c) {
                            vstd::utf8::encode_utf8_valid_utf8(commit_chars(c));
                        }
                    }
                }
                return Err(YsError::serialization(
                    "a stored commit is not text".to_owned(),
                ));
            },
        };
        let commit = match Commit::decode(commit_text.as_str()) {
            Some(c) => c,
            None => {
                proof {
                    assert forall|c: Commit| !#[trigger] bytes_decode_commit(
                        store@[tipv@],
                        c,
                    ) by {
                        if bytes_decode_commit(commit_bytes_view, c) {
                            vstd::utf8::encode_utf8_decode_utf8(commit_chars(c));
                            assert(commit_text@ == commit_chars(c));
                        }
                    }
                }
                return Err(YsError::serialization(
                    "a stored commit does not decode".to_owned(),
                ));
            },
        };
        proof {
            vstd::utf8::decode_utf8_encode_utf8(commit_bytes_view);
            assert(commit_bytes_view == encode_utf8(commit_chars(commit)));
            assert(bytes_decode_commit(store@[tipv@], commit));
            assert forall|c: Commit|
                #[trigger] bytes_decode_commit(store@[tipv@], c) implies c.tree@
                == commit.tree@ by {
                vstd::utf8::encode_utf8_decode_utf8(commit_chars(c));
                vstd::utf8::encode_utf8_decode_utf8(commit_chars(commit));
                assert(commit_chars(c) == commit_chars(commit));
                crate::commit::lemma_commit_chars_same_tree(c, commit);
            }
        }
        let tree_bytes = match store.get(&commit.tree) {
            Ok(v) => v,
            Err(e) => {
                proof {
                    assert(!store@.contains_key(commit.tree@));
                }
                return Err(e);
            },
        };
        let ghost tree_bytes_view = tree_bytes@;
        let tree_text = match bytes_to_string(tree_bytes) {
            Some(s) => s,
            None => {
                proof {
                    assert forall|t: SnapShotTree| !#[trigger] bytes_decode_tree(
                        store@[commit.tree@],
                        t,
                    ) by {
                        if bytes_decode_tree(tree_bytes_view, t) {
                            vstd::utf8::encode_utf8_valid_utf8(tree_chars(t));
                        }
                    }
                }
                return Err(YsError::serialization(
                    "a stored tree is not text".to_owned(),
                ));
            },
        };
        match SnapShotTree::decode(tree_text.as_str()) {
            Some(t) => {
                proof {
                    vstd::utf8::decode_utf8_encode_utf8(tree_bytes_view);
                    assert(store@[commit.tree@] == encode_utf8(tree_chars(t)));
                    assert(tree_stored_at(*store, self.branches@, branch@, t));
                }
                Ok(t)
            },
            None => {
                proof {
                    assert forall|t: SnapShotTree| !#[trigger] bytes_decode_tree(
                        store@[commit.tree@],
                        t,
                    ) by {
                        if bytes_decode_tree(tree_bytes_view, t) {
                            vstd::utf8::encode_utf8_decode_utf8(tree_chars(t));
                            assert(tree_text@ == tree_chars(t));
                        }
                    }
                }
                Err(YsError::serialization("a stored tree does not decode".to_owned()))
            },
        }
    }

    /// The local object store that holds this repository's objects.
    pub fn store(&self) -> (r: LocalObjectStore)
        ensures
            r.root@ == self.root@ + "/"@ + crate::DOT_YUAN_SHEN@ + "/store"@,
    {
        let mut path = self.root.clone();
        path.append("/");
        path.append(crate::DOT_YUAN_SHEN);
        path.append("/store");
        LocalObjectStore::new(path)
    }

    /// The ignore rules of this repository.
    pub fn ignores(&self) -> (r: &IgnoreRules)
        ensures
            r == self.ignores,
    {
        &self.ignores
    }
}

/// The configuration that initialization starts from: where the repository
/// is created, what its first branch is called, and what it ignores.
#[derive(Debug)]
pub struct InitializeConfig {
    /// The directory the repository is created in, as path text.
    pub current: String,
    /// The name of the first branch.
    pub initial_branch: String,
    /// The ignore rules the repository starts with.
    pub ignores: IgnoreRules,
}

impl InitializeConfig {
    /// The path of one entry of the repository's metadata directory.
    pub fn join(&self, path: &str) -> (r: String)
        ensures
            r@ == self.current@ + "/"@ + crate::DOT_YUAN_SHEN@ + "/"@ + path@,
    {
        let mut s = self.current.clone();
        s.append("/");
        s.append(crate::DOT_YUAN_SHEN);
        s.append("/");
        s.append(path);
        s
    }

    /// The first state of a repository: an empty snapshot tree is stored, a
    /// root commit without parents records it, and the one initial branch
    /// points at that commit. Initialization itself never fails.
    pub fn generate(&self, store: &mut MemoryObjectStore, timestamp: u64) -> (r: Result<
        DotYuanShen,
        YsError,
    >)
        requires
            crate::store::store_entries_wf(old(store).entries@),
        ensures
            crate::store::store_entries_wf(final(store).entries@),
            match r {
                Ok(repo) => branches_wf(repo.branches@) && repo.root@ == self.current@
                    && repo.branch@ == self.initial_branch@ && repo.ignores.glob@
                    == self.ignores.glob@ && (exists|c: Commit, te: SnapShotTree|
                    {
                        &&& #[trigger] commit_wf(c)
                        &&& #[trigger] tree_wf(te)
                        &&& te.entries@.len() == 0
                        &&& c.tree@ == digest_of(encode_utf8(tree_chars(te)))
                        &&& c.parents@.len() == 0
                        &&& c.authors@.len() == 0
                        &&& c.timestamp == timestamp
                        &&& branch_lookup(repo.branches@, self.initial_branch@) matches Some(tip)
                            && tip@ == digest_of(encode_utf8(commit_chars(c)))
                        &&& final(store)@ =~= old(store)@.insert(
                            digest_of(encode_utf8(tree_chars(te))),
                            encode_utf8(tree_chars(te)),
                        ).insert(
                            digest_of(encode_utf8(commit_chars(c))),
                            encode_utf8(commit_chars(c)),
                        )
                    }),
                Err(_) => false,
            },
    {
        let tree = SnapShotTree::new();
        let tree_text = tree.encode();
        let tree_bytes = tree_text.as_str().as_bytes_vec();
        let tree_id = match store.put(tree_bytes.as_slice()) {
            Ok(id) => id,
            Err(e) => {
                return Err(e);
            },
        };
        let commit = Commit {
            tree: tree_id,
            parents: Vec::new(),
            message: "Project initialized!".to_owned(),
            authors: Vec::new(),
            timestamp,
        };
        let commit_text = commit.encode();
        let commit_bytes = commit_text.as_str().as_bytes_vec();
        let cid = match store.put(commit_bytes.as_slice()) {
            Ok(id) => id,
            Err(e) => {
                return Err(e);
            },
        };
        let mut branches: Vec<(String, ObjectID)> = Vec::new();
        branches.push((self.initial_branch.clone(), cid));
        let repo = DotYuanShen {
            root: self.current.clone(),
            branch: self.initial_branch.clone(),
            branches,
            ignores: self.ignores.duplicate(),
        };
        proof {
            assert(repo.branches@.len() == 1);
            assert(repo.branches@[0].0@ == self.initial_branch@);
            assert(branch_lookup(repo.branches@, self.initial_branch@) == Some(
                repo.branches@[0].1,
            ));
            assert(commit_wf(commit) && tree_wf(tree) && tree.spec_entries().len() == 0);
        }
        Ok(repo)
    }
}

/// Where a repository's durable pieces live under its root directory: the
/// path of each piece is computed here, and whoever owns the filesystem reads
/// and writes at these paths.
#[derive(Debug)]
pub struct LocalDotYuanShen {
    /// The repository's directory, as path text.
    pub root: String,
}

impl LocalDotYuanShen {
    /// The layout of a repository rooted at the given directory.
    pub fn new(root: String) -> (r: Self)
        ensures
            r.root@ == root@,
    {
        LocalDotYuanShen { root }
    }

    /// The directory that holds one pointer file per branch.
    pub fn branches_directory(&self) -> (r: String)
        ensures
            r@ == self.root@ + "/"@ + crate::DOT_YUAN_SHEN@ + "/branches"@,
    {
        let mut s = self.root.clone();
        s.append("/");
        s.append(crate::DOT_YUAN_SHEN);
        s.append("/branches");
        s
    }

    /// The file that holds the current branch's name.
    pub fn branch_file(&self) -> (r: String)
        ensures
            r@ == self.root@ + "/"@ + crate::DOT_YUAN_SHEN@ + "/branch"@,
    {
        let mut s = self.root.clone();
        s.append("/");
        s.append(crate::DOT_YUAN_SHEN);
        s.append("/branch");
        s
    }

    /// The file that holds the blob with the given identifier, sharded under
    /// the store directory.
    pub fn store_file(&self, id: &ObjectID) -> (r: String)
        requires
            id.well_formed(),
        ensures
            r@ == self.root@ + "/"@ + crate::DOT_YUAN_SHEN@ + "/store"@ + "/"@ + hex_of(
                id@,
            ).take(crate::store::SHARD_PREFIX_LENGTH as int) + "/"@ + hex_of(id@).skip(
                crate::store::SHARD_PREFIX_LENGTH as int,
            ),
    {
        proof {
            reveal_strlit("/");
        }
        let hex = id.to_text();
        let mut s = self.root.clone();
        s.append("/");
        s.append(crate::DOT_YUAN_SHEN);
        s.append("/store");
        s.append("/");
        s.append(hex.as_str().substring_char(0, crate::store::SHARD_PREFIX_LENGTH));
        s.append("/");
        s.append(hex.as_str().substring_char(crate::store::SHARD_PREFIX_LENGTH, 64));
        proof {
            assert(hex@.subrange(0, crate::store::SHARD_PREFIX_LENGTH as int) =~= hex_of(
                id@,
            ).take(crate::store::SHARD_PREFIX_LENGTH as int));
            assert(hex@.subrange(crate::store::SHARD_PREFIX_LENGTH as int, 64) =~= hex_of(
                id@,
            ).skip(crate::store::SHARD_PREFIX_LENGTH as int));
        }
        s
    }
}

} // verus!
