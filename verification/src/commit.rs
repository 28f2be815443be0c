//! The commit: an immutable history node naming a snapshot tree, any number
//! of parent commits, a message, authors, and a timestamp. A commit's
//! identity is the digest of its canonical text, so identity covers every
//! field, and equal values always share one identity.

use vstd::prelude::*;

use vstd::string::StringSliceAdditionalSpecFns;

use crate::codec::{len16_chars, len16_string, lemma_len16_injective, lemma_len16_lower};
use crate::object_id::{bytes_lt, digest_of, AuthorID, ObjectID};
use crate::text::{hex_of, lemma_hex_round_trip};
use vstd::utf8::encode_utf8;

verus! {

broadcast use vstd::std_specs::vec::group_vec_axioms;

/// An immutable history node: one snapshot tree, the parents it follows, and
/// the recorded metadata.
#[derive(Debug)]
pub struct Commit {
    /// The root snapshot tree of this commit.
    pub tree: ObjectID,
    /// The parent commits: none for a root commit, one for an ordinary
    /// commit, more for a merge. Kept strictly ascending, so the set has one
    /// canonical spelling.
    pub parents: Vec<ObjectID>,
    /// The commit message.
    pub message: String,
    /// The authors, kept strictly ascending.
    pub authors: Vec<AuthorID>,
    /// Seconds since the epoch, as the caller's clock reported them.
    pub timestamp: u64,
}

/// Identifier lists strictly ascending in byte order: unique, one spelling.
pub open spec fn oids_sorted(ids: Seq<ObjectID>) -> bool {
    forall|i: int, j: int| 0 <= i < j < ids.len() ==> bytes_lt((#[trigger] ids[i])@, (#[trigger] ids[j])@)
}

/// Author lists strictly ascending in byte order.
pub open spec fn authors_sorted(ids: Seq<AuthorID>) -> bool {
    forall|i: int, j: int| 0 <= i < j < ids.len() ==> bytes_lt((#[trigger] ids[i])@, (#[trigger] ids[j])@)
}

/// Well-formedness of a commit: full digests everywhere, parent and author
/// lists strictly sorted.
pub open spec fn commit_wf(c: Commit) -> bool {
    &&& c.tree.well_formed()
    &&& oids_sorted(c.parents@)
    &&& forall|i: int| 0 <= i < c.parents@.len() ==> (#[trigger] c.parents@[i]).well_formed()
    &&& authors_sorted(c.authors@)
    &&& forall|i: int| 0 <= i < c.authors@.len() ==> (#[trigger] c.authors@[i]).well_formed()
}

/// Value equality of commits: every field equal.
pub open spec fn commit_equiv(a: Commit, b: Commit) -> bool {
    &&& a.tree@ == b.tree@
    &&& a.parents@.len() == b.parents@.len()
    &&& forall|i: int| 0 <= i < a.parents@.len() ==> (#[trigger] a.parents@[i])@ == b.parents@[i]@
    &&& a.message@ == b.message@
    &&& a.authors@.len() == b.authors@.len()
    &&& forall|i: int| 0 <= i < a.authors@.len() ==> (#[trigger] a.authors@[i])@ == b.authors@[i]@
    &&& a.timestamp == b.timestamp
}

/// The hexadecimal texts of a list of object identifiers, joined.
pub open spec fn oid_list_chars(ids: Seq<ObjectID>) -> Seq<char>
    decreases ids.len(),
{
    if ids.len() == 0 {
        Seq::empty()
    } else {
        hex_of(ids[0]@) + oid_list_chars(ids.drop_first())
    }
}

/// The hexadecimal texts of a list of author identifiers, joined.
pub open spec fn author_list_chars(ids: Seq<AuthorID>) -> Seq<char>
    decreases ids.len(),
{
    if ids.len() == 0 {
        Seq::empty()
    } else {
        hex_of(ids[0]@) + author_list_chars(ids.drop_first())
    }
}

/// The canonical text of a commit: a fixed header naming the tree and the
/// section sizes, then the parents, the authors, and the message.
pub open spec fn commit_chars(c: Commit) -> Seq<char> {
    seq!['C'] + hex_of(c.tree@) + len16_chars(c.parents@.len() as u64) + len16_chars(
        c.authors@.len() as u64,
    ) + len16_chars(c.timestamp) + len16_chars(c.message@.len() as u64) + oid_list_chars(
        c.parents@,
    ) + author_list_chars(c.authors@) + c.message@
}

/// Encoding one more identifier appends its text.
pub proof fn lemma_oid_list_push(ids: Seq<ObjectID>, x: ObjectID)
    ensures
        oid_list_chars(ids.push(x)) =~= oid_list_chars(ids) + hex_of(x@),
    decreases ids.len(),
{
    if ids.len() == 0 {
        assert(ids.push(x)[0] == x);
        assert(ids.push(x).drop_first() =~= Seq::<ObjectID>::empty());
        assert(oid_list_chars(ids.push(x)) == hex_of(x@) + oid_list_chars(Seq::<ObjectID>::empty()));
    } else {
        lemma_oid_list_push(ids.drop_first(), x);
        assert(ids.push(x).drop_first() =~= ids.drop_first().push(x));
        assert(ids.push(x)[0] == ids[0]);
        assert(oid_list_chars(ids.push(x)) == hex_of(ids[0]@) + oid_list_chars(
            ids.drop_first().push(x),
        ));
        assert(oid_list_chars(ids) == hex_of(ids[0]@) + oid_list_chars(ids.drop_first()));
    }
}

/// Encoding one more author appends its text.
pub proof fn lemma_author_list_push(ids: Seq<AuthorID>, x: AuthorID)
    ensures
        author_list_chars(ids.push(x)) =~= author_list_chars(ids) + hex_of(x@),
    decreases ids.len(),
{
    if ids.len() == 0 {
        assert(ids.push(x)[0] == x);
        assert(ids.push(x).drop_first() =~= Seq::<AuthorID>::empty());
        assert(author_list_chars(ids.push(x)) == hex_of(x@) + author_list_chars(
            Seq::<AuthorID>::empty(),
        ));
    } else {
        lemma_author_list_push(ids.drop_first(), x);
        assert(ids.push(x).drop_first() =~= ids.drop_first().push(x));
        assert(ids.push(x)[0] == ids[0]);
        assert(author_list_chars(ids.push(x)) == hex_of(ids[0]@) + author_list_chars(
            ids.drop_first().push(x),
        ));
        assert(author_list_chars(ids) == hex_of(ids[0]@) + author_list_chars(ids.drop_first()));
    }
}

/// The joined text of well-formed identifiers is 64 characters each, and the
/// slice of each identifier's place is its own text.
pub proof fn lemma_oid_list_slices(ids: Seq<ObjectID>)
    requires
        forall|i: int| 0 <= i < ids.len() ==> (#[trigger] ids[i]).well_formed(),
    ensures
        oid_list_chars(ids).len() == 64 * ids.len(),
        forall|i: int|
            0 <= i < ids.len() ==> oid_list_chars(ids).subrange(64 * i, 64 * i + 64) =~= hex_of(
                (#[trigger] ids[i])@,
            ),
    decreases ids.len(),
{
    if ids.len() > 0 {
        assert forall|i: int| 0 <= i < ids.drop_first().len() implies (
        #[trigger] ids.drop_first()[i]).well_formed() by {
            assert(ids.drop_first()[i] == ids[i + 1]);
        }
        lemma_oid_list_slices(ids.drop_first());
        assert forall|i: int| 0 <= i < ids.len() implies oid_list_chars(ids).subrange(
            64 * i,
            64 * i + 64,
        ) =~= hex_of((#[trigger] ids[i])@) by {
            if i == 0 {
                assert forall|q: int| 0 <= q < 64 implies #[trigger] oid_list_chars(ids).subrange(
                    0,
                    64,
                )[q] == hex_of(ids[0]@)[q] by {
                    assert(oid_list_chars(ids)[q] == (hex_of(ids[0]@) + oid_list_chars(
                        ids.drop_first(),
                    ))[q]);
                }
            } else {
                assert(ids.drop_first()[i - 1] == ids[i]);
                assert forall|q: int| 0 <= q < 64 implies #[trigger] oid_list_chars(ids).subrange(
                    64 * i,
                    64 * i + 64,
                )[q] == hex_of(ids[i]@)[q] by {
                    assert(oid_list_chars(ids).subrange(64 * i, 64 * i + 64)[q] == (hex_of(
                        ids[0]@,
                    ) + oid_list_chars(ids.drop_first()))[64 * i + q]);
                    assert(oid_list_chars(ids.drop_first()).subrange(
                        64 * (i - 1),
                        64 * (i - 1) + 64,
                    )[q] == hex_of(ids.drop_first()[i - 1]@)[q]);
                    assert(oid_list_chars(ids.drop_first())[64 * (i - 1) + q] == oid_list_chars(
                        ids.drop_first(),
                    ).subrange(64 * (i - 1), 64 * (i - 1) + 64)[q]);
                }
            }
        }
    }
}

/// The joined text of well-formed authors, sliced the same way.
pub proof fn lemma_author_list_slices(ids: Seq<AuthorID>)
    requires
        forall|i: int| 0 <= i < ids.len() ==> (#[trigger] ids[i]).well_formed(),
    ensures
        author_list_chars(ids).len() == 64 * ids.len(),
        forall|i: int|
            0 <= i < ids.len() ==> author_list_chars(ids).subrange(64 * i, 64 * i + 64)
                =~= hex_of((#[trigger] ids[i])@),
    decreases ids.len(),
{
    if ids.len() > 0 {
        assert forall|i: int| 0 <= i < ids.drop_first().len() implies (
        #[trigger] ids.drop_first()[i]).well_formed() by {
            assert(ids.drop_first()[i] == ids[i + 1]);
        }
        lemma_author_list_slices(ids.drop_first());
        assert forall|i: int| 0 <= i < ids.len() implies author_list_chars(ids).subrange(
            64 * i,
            64 * i + 64,
        ) =~= hex_of((#[trigger] ids[i])@) by {
            if i == 0 {
                assert forall|q: int|
                    0 <= q < 64 implies #[trigger] author_list_chars(ids).subrange(0, 64)[q]
                    == hex_of(ids[0]@)[q] by {
                    assert(author_list_chars(ids)[q] == (hex_of(ids[0]@) + author_list_chars(
                        ids.drop_first(),
                    ))[q]);
                }
            } else {
                assert(ids.drop_first()[i - 1] == ids[i]);
                assert forall|q: int|
                    0 <= q < 64 implies #[trigger] author_list_chars(ids).subrange(
                    64 * i,
                    64 * i + 64,
                )[q] == hex_of(ids[i]@)[q] by {
                    assert(author_list_chars(ids).subrange(64 * i, 64 * i + 64)[q] == (hex_of(
                        ids[0]@,
                    ) + author_list_chars(ids.drop_first()))[64 * i + q]);
                    assert(author_list_chars(ids.drop_first()).subrange(
                        64 * (i - 1),
                        64 * (i - 1) + 64,
                    )[q] == hex_of(ids.drop_first()[i - 1]@)[q]);
                    assert(author_list_chars(ids.drop_first())[64 * (i - 1) + q]
                        == author_list_chars(ids.drop_first()).subrange(
                        64 * (i - 1),
                        64 * (i - 1) + 64,
                    )[q]);
                }
            }
        }
    }
}

/// Where each section of a commit's text stands.
#[verifier::rlimit(100)]
pub proof fn lemma_commit_text_fields(c0: Commit)
    requires
        commit_wf(c0),
    ensures
        commit_chars(c0).len() == 129 + 64 * c0.parents@.len() + 64 * c0.authors@.len()
            + c0.message@.len(),
        commit_chars(c0)[0] == 'C',
        commit_chars(c0).subrange(1, 65) =~= hex_of(c0.tree@),
        commit_chars(c0).subrange(65, 81) =~= len16_chars(c0.parents@.len() as u64),
        commit_chars(c0).subrange(81, 97) =~= len16_chars(c0.authors@.len() as u64),
        commit_chars(c0).subrange(97, 113) =~= len16_chars(c0.timestamp),
        commit_chars(c0).subrange(113, 129) =~= len16_chars(c0.message@.len() as u64),
        forall|m: int|
            0 <= m < c0.parents@.len() ==> commit_chars(c0).subrange(
                129 + 64 * m,
                129 + 64 * m + 64,
            ) =~= hex_of((#[trigger] c0.parents@[m])@),
        forall|m: int|
            0 <= m < c0.authors@.len() ==> commit_chars(c0).subrange(
                129 + 64 * c0.parents@.len() + 64 * m,
                129 + 64 * c0.parents@.len() + 64 * m + 64,
            ) =~= hex_of((#[trigger] c0.authors@[m])@),
        commit_chars(c0).skip(
            129 + 64 * c0.parents@.len() + 64 * c0.authors@.len() as int,
        ) =~= c0.message@,
{
    lemma_len16_lower(c0.parents@.len() as u64);
    lemma_len16_lower(c0.authors@.len() as u64);
    lemma_len16_lower(c0.timestamp);
    lemma_len16_lower(c0.message@.len() as u64);
    lemma_oid_list_slices(c0.parents@);
    lemma_author_list_slices(c0.authors@);
    let cc = commit_chars(c0);
    let np = c0.parents@.len() as int;
    let na = c0.authors@.len() as int;
    assert(cc[0] == 'C');
    assert forall|q: int| 0 <= q < 64 implies #[trigger] cc.subrange(1, 65)[q] == hex_of(
        c0.tree@,
    )[q] by {
        assert(cc.subrange(1, 65)[q] == cc[1 + q]);
    }
    assert forall|q: int| 0 <= q < 16 implies #[trigger] cc.subrange(65, 81)[q] == len16_chars(
        c0.parents@.len() as u64,
    )[q] by {
        assert(cc.subrange(65, 81)[q] == cc[65 + q]);
    }
    assert forall|q: int| 0 <= q < 16 implies #[trigger] cc.subrange(81, 97)[q] == len16_chars(
        c0.authors@.len() as u64,
    )[q] by {
        assert(cc.subrange(81, 97)[q] == cc[81 + q]);
    }
    assert forall|q: int| 0 <= q < 16 implies #[trigger] cc.subrange(97, 113)[q] == len16_chars(
        c0.timestamp,
    )[q] by {
        assert(cc.subrange(97, 113)[q] == cc[97 + q]);
    }
    assert forall|q: int| 0 <= q < 16 implies #[trigger] cc.subrange(113, 129)[q] == len16_chars(
        c0.message@.len() as u64,
    )[q] by {
        assert(cc.subrange(113, 129)[q] == cc[113 + q]);
    }
    assert forall|m: int| 0 <= m < np implies cc.subrange(129 + 64 * m, 129 + 64 * m + 64)
        =~= hex_of((#[trigger] c0.parents@[m])@) by {
        assert forall|q: int| 0 <= q < 64 implies #[trigger] cc.subrange(
            129 + 64 * m,
            129 + 64 * m + 64,
        )[q] == hex_of(c0.parents@[m]@)[q] by {
            assert(cc.subrange(129 + 64 * m, 129 + 64 * m + 64)[q] == cc[129 + 64 * m + q]);
            assert(oid_list_chars(c0.parents@)[64 * m + q] == oid_list_chars(
                c0.parents@,
            ).subrange(64 * m, 64 * m + 64)[q]);
        }
    }
    assert forall|m: int| 0 <= m < na implies cc.subrange(
        129 + 64 * np + 64 * m,
        129 + 64 * np + 64 * m + 64,
    ) =~= hex_of((#[trigger] c0.authors@[m])@) by {
        assert forall|q: int| 0 <= q < 64 implies #[trigger] cc.subrange(
            129 + 64 * np + 64 * m,
            129 + 64 * np + 64 * m + 64,
        )[q] == hex_of(c0.authors@[m]@)[q] by {
            assert(cc.subrange(129 + 64 * np + 64 * m, 129 + 64 * np + 64 * m + 64)[q] == cc[129
                + 64 * np + 64 * m + q]);
            assert(author_list_chars(c0.authors@)[64 * m + q] == author_list_chars(
                c0.authors@,
            ).subrange(64 * m, 64 * m + 64)[q]);
        }
    }
    assert forall|q: int| 0 <= q < c0.message@.len() implies #[trigger] cc.skip(
        129 + 64 * np + 64 * na,
    )[q] == c0.message@[q] by {
        assert(cc.skip(129 + 64 * np + 64 * na)[q] == cc[129 + 64 * np + 64 * na + q]);
    }
}

/// A text whose sections all match a commit's fields is that commit's text.
#[verifier::rlimit(100)]
pub proof fn lemma_commit_assembled(sv: Seq<char>, c: Commit, after_p: int, after_a: int)
    requires
        commit_wf(c),
        after_p == 129 + 64 * c.parents@.len(),
        after_a == after_p + 64 * c.authors@.len(),
        sv.len() == after_a + c.message@.len(),
        sv[0] == 'C',
        sv.subrange(1, 65) == hex_of(c.tree@),
        sv.subrange(65, 81) == len16_chars(c.parents@.len() as u64),
        sv.subrange(81, 97) == len16_chars(c.authors@.len() as u64),
        sv.subrange(97, 113) == len16_chars(c.timestamp),
        sv.subrange(113, 129) == len16_chars(c.message@.len() as u64),
        forall|m: int|
            0 <= m < c.parents@.len() ==> sv.subrange(129 + 64 * m, 129 + 64 * m + 64)
                == hex_of((#[trigger] c.parents@[m])@),
        forall|m: int|
            0 <= m < c.authors@.len() ==> sv.subrange(after_p + 64 * m, after_p + 64 * m + 64)
                == hex_of((#[trigger] c.authors@[m])@),
        sv.skip(after_a) == c.message@,
    ensures
        sv =~= commit_chars(c),
{
    lemma_commit_text_fields(c);
    let cc = commit_chars(c);
    assert forall|q: int| 0 <= q < sv.len() implies sv[q] == #[trigger] cc[q] by {
        if q == 0 {
        } else if q < 65 {
            assert(sv.subrange(1, 65)[q - 1] == sv[q]);
            assert(cc.subrange(1, 65)[q - 1] == cc[q]);
        } else if q < 81 {
            assert(sv.subrange(65, 81)[q - 65] == sv[q]);
            assert(cc.subrange(65, 81)[q - 65] == cc[q]);
        } else if q < 97 {
            assert(sv.subrange(81, 97)[q - 81] == sv[q]);
            assert(cc.subrange(81, 97)[q - 81] == cc[q]);
        } else if q < 113 {
            assert(sv.subrange(97, 113)[q - 97] == sv[q]);
            assert(cc.subrange(97, 113)[q - 97] == cc[q]);
        } else if q < 129 {
            assert(sv.subrange(113, 129)[q - 113] == sv[q]);
            assert(cc.subrange(113, 129)[q - 113] == cc[q]);
        } else if q < after_p {
            let m = (q - 129) / 64;
            let o = (q - 129) % 64;
            let pid = c.parents@[m];
            assert(q == 129 + 64 * m + o);
            assert(sv.subrange(129 + 64 * m, 129 + 64 * m + 64) == hex_of(pid@));
            assert(cc.subrange(129 + 64 * m, 129 + 64 * m + 64) =~= hex_of(pid@));
            assert(sv.subrange(129 + 64 * m, 129 + 64 * m + 64)[o] == sv[q]);
            assert(cc.subrange(129 + 64 * m, 129 + 64 * m + 64)[o] == cc[q]);
        } else if q < after_a {
            let m = (q - after_p) / 64;
            let o = (q - after_p) % 64;
            let aid = c.authors@[m];
            assert(q == after_p + 64 * m + o);
            assert(sv.subrange(after_p + 64 * m, after_p + 64 * m + 64) == hex_of(aid@));
            assert(cc.subrange(129 + 64 * c.parents@.len() + 64 * m, 129 + 64 * c.parents@.len()
                + 64 * m + 64) =~= hex_of(aid@));
            assert(sv.subrange(after_p + 64 * m, after_p + 64 * m + 64)[o] == sv[q]);
            assert(cc.subrange(after_p + 64 * m, after_p + 64 * m + 64)[o] == cc[q]);
        } else {
            assert(sv.skip(after_a)[q - after_a] == sv[q]);
            assert(cc.skip(after_a)[q - after_a] == cc[q]);
        }
    }
}

/// Two well-formed commits with the same canonical text name the same tree.
pub proof fn lemma_commit_chars_same_tree(c1: Commit, c2: Commit)
    requires
        commit_wf(c1),
        commit_wf(c2),
        commit_chars(c1) == commit_chars(c2),
    ensures
        c1.tree@ == c2.tree@,
{
    lemma_commit_text_fields(c1);
    lemma_commit_text_fields(c2);
    assert(hex_of(c1.tree@) =~= hex_of(c2.tree@));
    lemma_hex_round_trip(c1.tree@);
    lemma_hex_round_trip(c2.tree@);
    assert(c1.tree@ =~= c2.tree@);
}

impl Commit {
    /// The canonical text of this commit.
    pub fn encode(&self) -> (s: String)
        requires
            commit_wf(*self),
        ensures
            s@ == commit_chars(*self),
    {
        proof {
            reveal_strlit("C");
        }
        let mut s = String::new();
        s.append("C");
        s.append(self.tree.to_text().as_str());
        s.append(len16_string(self.parents.len() as u64).as_str());
        s.append(len16_string(self.authors.len() as u64).as_str());
        s.append(len16_string(self.timestamp).as_str());
        s.append(len16_string(self.message.as_str().unicode_len() as u64).as_str());
        let ghost header = s@;
        let mut i: usize = 0;
        proof {
            assert(oid_list_chars(self.parents@.take(0)) =~= Seq::<char>::empty());
            assert(s@ =~= header + oid_list_chars(self.parents@.take(0)));
        }
        while i < self.parents.len()
            invariant
                i <= self.parents@.len(),
                s@ =~= header + oid_list_chars(self.parents@.take(i as int)),
            decreases self.parents@.len() - i,
        {
            s.append(self.parents[i].to_text().as_str());
            proof {
                lemma_oid_list_push(self.parents@.take(i as int), self.parents@[i as int]);
                assert(self.parents@.take(i + 1) =~= self.parents@.take(i as int).push(
                    self.parents@[i as int],
                ));
            }
            i = i + 1;
        }
        proof {
            assert(self.parents@.take(self.parents@.len() as int) =~= self.parents@);
        }
        let ghost with_parents = s@;
        let mut i: usize = 0;
        proof {
            assert(author_list_chars(self.authors@.take(0)) =~= Seq::<char>::empty());
            assert(s@ =~= with_parents + author_list_chars(self.authors@.take(0)));
        }
        while i < self.authors.len()
            invariant
                i <= self.authors@.len(),
                s@ =~= with_parents + author_list_chars(self.authors@.take(i as int)),
            decreases self.authors@.len() - i,
        {
            s.append(self.authors[i].to_text().as_str());
            proof {
                lemma_author_list_push(self.authors@.take(i as int), self.authors@[i as int]);
                assert(self.authors@.take(i + 1) =~= self.authors@.take(i as int).push(
                    self.authors@[i as int],
                ));
            }
            i = i + 1;
        }
        proof {
            assert(self.authors@.take(self.authors@.len() as int) =~= self.authors@);
        }
        s.append(self.message.as_str());
        proof {
            assert(s@ =~= commit_chars(*self));
        }
        s
    }

    /// Reads a commit back from its canonical text. Succeeds exactly on the
    /// text of a well-formed commit, and gives back the commit the text was
    /// made from.
    #[verifier::rlimit(100)]
    #[verifier::loop_isolation(false)]
    pub fn decode(s: &str) -> (r: Option<Commit>)
        ensures
            match r {
                Some(c) => commit_wf(c) && s@ =~= commit_chars(c),
                None => forall|c0: Commit| commit_wf(c0) ==> s@ != commit_chars(c0),
            },
    {
        let len: usize = s.unicode_len();
        if len < 129 || s.get_char(0) != 'C' {
            proof {
                assert forall|c0: Commit| commit_wf(c0) implies s@ != commit_chars(c0) by {
                    if s@ == commit_chars(c0) {
                        lemma_commit_text_fields(c0);
                    }
                }
            }
            return None;
        }
        let tree = match crate::codec::parse_id_at(s, 1, len) {
            Some(id) => id,
            None => {
                proof {
                    assert forall|c0: Commit| commit_wf(c0) implies s@ != commit_chars(c0) by {
                        if s@ == commit_chars(c0) {
                            lemma_commit_text_fields(c0);
                        }
                    }
                }
                return None;
            },
        };
        let np64 = match crate::codec::parse_len16(s, 65, len) {
            Some(n) => n,
            None => {
                proof {
                    assert forall|c0: Commit| commit_wf(c0) implies s@ != commit_chars(c0) by {
                        if s@ == commit_chars(c0) {
                            lemma_commit_text_fields(c0);
                        }
                    }
                }
                return None;
            },
        };
        let na64 = match crate::codec::parse_len16(s, 81, len) {
            Some(n) => n,
            None => {
                proof {
                    assert forall|c0: Commit| commit_wf(c0) implies s@ != commit_chars(c0) by {
                        if s@ == commit_chars(c0) {
                            lemma_commit_text_fields(c0);
                        }
                    }
                }
                return None;
            },
        };
        let ts = match crate::codec::parse_len16(s, 97, len) {
            Some(n) => n,
            None => {
                proof {
                    assert forall|c0: Commit| commit_wf(c0) implies s@ != commit_chars(c0) by {
                        if s@ == commit_chars(c0) {
                            lemma_commit_text_fields(c0);
                        }
                    }
                }
                return None;
            },
        };
        let ml64 = match crate::codec::parse_len16(s, 113, len) {
            Some(n) => n,
            None => {
                proof {
                    assert forall|c0: Commit| commit_wf(c0) implies s@ != commit_chars(c0) by {
                        if s@ == commit_chars(c0) {
                            lemma_commit_text_fields(c0);
                        }
                    }
                }
                return None;
            },
        };
        proof {
            assert forall|c0: Commit|
                commit_wf(c0) && s@ == commit_chars(c0) implies np64 == c0.parents@.len() && na64
                == c0.authors@.len() && ts == c0.timestamp && ml64 == c0.message@.len() && tree@
                == c0.tree@ by {
                lemma_commit_text_fields(c0);
                lemma_len16_injective(np64, c0.parents@.len() as u64);
                lemma_len16_injective(na64, c0.authors@.len() as u64);
                lemma_len16_injective(ts, c0.timestamp);
                lemma_len16_injective(ml64, c0.message@.len() as u64);
                lemma_hex_round_trip(tree@);
                lemma_hex_round_trip(c0.tree@);
            }
        }
        if np64 > (((len - 129) / 64) as u64) {
            proof {
                assert forall|c0: Commit| commit_wf(c0) implies s@ != commit_chars(c0) by {
                    if s@ == commit_chars(c0) {
                        lemma_commit_text_fields(c0);
                    }
                }
            }
            return None;
        }
        let np = np64 as usize;
        let after_p = 129 + 64 * np;
        if na64 > (((len - after_p) / 64) as u64) {
            proof {
                assert forall|c0: Commit| commit_wf(c0) implies s@ != commit_chars(c0) by {
                    if s@ == commit_chars(c0) {
                        lemma_commit_text_fields(c0);
                    }
                }
            }
            return None;
        }
        let na = na64 as usize;
        let after_a = after_p + 64 * na;
        if ml64 != ((len - after_a) as u64) {
            proof {
                assert forall|c0: Commit| commit_wf(c0) implies s@ != commit_chars(c0) by {
                    if s@ == commit_chars(c0) {
                        lemma_commit_text_fields(c0);
                    }
                }
            }
            return None;
        }
        let mut parents: Vec<ObjectID> = Vec::new();
        let mut i: usize = 0;
        while i < np
            invariant
                i <= np,
                parents@.len() == i,
                forall|m: int|
                    0 <= m < i ==> (#[trigger] parents@[m]).well_formed() && s@.subrange(
                        129 + 64 * m,
                        129 + 64 * m + 64,
                    ) =~= hex_of(parents@[m]@),
                forall|m1: int, m2: int|
                    0 <= m1 < m2 < i ==> bytes_lt(
                        (#[trigger] parents@[m1])@,
                        (#[trigger] parents@[m2])@,
                    ),
            decreases np - i,
        {
            let id = match crate::codec::parse_id_at(s, 129 + 64 * i, len) {
                Some(id) => id,
                None => {
                    proof {
                        assert forall|c0: Commit| commit_wf(c0) implies s@ != commit_chars(
                            c0,
                        ) by {
                            if s@ == commit_chars(c0) {
                                lemma_commit_text_fields(c0);
                                lemma_oid_list_slices(c0.parents@);
                                assert(s@.subrange(129 + 64 * i, 129 + 64 * i + 64) =~= hex_of(
                                    c0.parents@[i as int]@,
                                ));
                            }
                        }
                    }
                    return None;
                },
            };
            if i > 0 {
                let order = parents[i - 1].compare(&id);
                if order != -1 {
                    proof {
                        crate::object_id::lemma_bytes_trichotomy(parents@[i - 1]@, id@);
                        assert forall|c0: Commit| commit_wf(c0) implies s@ != commit_chars(
                            c0,
                        ) by {
                            if s@ == commit_chars(c0) {
                                lemma_commit_text_fields(c0);
                                lemma_oid_list_slices(c0.parents@);
                                assert(s@.subrange(129 + 64 * i, 129 + 64 * i + 64) =~= hex_of(
                                    c0.parents@[i as int]@,
                                ));
                                assert(s@.subrange(129 + 64 * (i - 1), 129 + 64 * (i - 1) + 64)
                                    =~= hex_of(c0.parents@[i - 1]@));
                                lemma_hex_round_trip(id@);
                                lemma_hex_round_trip(c0.parents@[i as int]@);
                                lemma_hex_round_trip(parents@[i - 1]@);
                                lemma_hex_round_trip(c0.parents@[i - 1]@);
                                assert(bytes_lt(parents@[i - 1]@, id@));
                            }
                        }
                    }
                    return None;
                }
            }
            proof {
                if i > 0 {
                    assert forall|m: int| 0 <= m < i implies bytes_lt(
                        (#[trigger] parents@[m])@,
                        id@,
                    ) by {
                        if m < i - 1 {
                            crate::object_id::lemma_bytes_lt_transitive(
                                parents@[m]@,
                                parents@[i - 1]@,
                                id@,
                            );
                        }
                    }
                }
            }
            parents.push(id);
            i = i + 1;
        }
        let mut authors: Vec<AuthorID> = Vec::new();
        let mut i: usize = 0;
        while i < na
            invariant
                i <= na,
                authors@.len() == i,
                forall|m: int|
                    0 <= m < i ==> (#[trigger] authors@[m]).well_formed() && s@.subrange(
                        after_p + 64 * m,
                        after_p + 64 * m + 64,
                    ) =~= hex_of(authors@[m]@),
                forall|m1: int, m2: int|
                    0 <= m1 < m2 < i ==> bytes_lt(
                        (#[trigger] authors@[m1])@,
                        (#[trigger] authors@[m2])@,
                    ),
            decreases na - i,
        {
            let a = match crate::codec::parse_author_at(s, after_p + 64 * i, len) {
                Some(a) => a,
                None => {
                    proof {
                        assert forall|c0: Commit| commit_wf(c0) implies s@ != commit_chars(
                            c0,
                        ) by {
                            if s@ == commit_chars(c0) {
                                lemma_commit_text_fields(c0);
                                lemma_author_list_slices(c0.authors@);
                                assert(s@.subrange(after_p + 64 * i, after_p + 64 * i + 64)
                                    =~= hex_of(c0.authors@[i as int]@));
                            }
                        }
                    }
                    return None;
                },
            };
            if i > 0 {
                let order = authors[i - 1].compare(&a);
                if order != -1 {
                    proof {
                        crate::object_id::lemma_bytes_trichotomy(authors@[i - 1]@, a@);
                        assert forall|c0: Commit| commit_wf(c0) implies s@ != commit_chars(
                            c0,
                        ) by {
                            if s@ == commit_chars(c0) {
                                lemma_commit_text_fields(c0);
                                lemma_author_list_slices(c0.authors@);
                                assert(s@.subrange(after_p + 64 * i, after_p + 64 * i + 64)
                                    =~= hex_of(c0.authors@[i as int]@));
                                assert(s@.subrange(
                                    after_p + 64 * (i - 1),
                                    after_p + 64 * (i - 1) + 64,
                                ) =~= hex_of(c0.authors@[i - 1]@));
                                lemma_hex_round_trip(a@);
                                lemma_hex_round_trip(c0.authors@[i as int]@);
                                lemma_hex_round_trip(authors@[i - 1]@);
                                lemma_hex_round_trip(c0.authors@[i - 1]@);
                                assert(bytes_lt(authors@[i - 1]@, a@));
                            }
                        }
                    }
                    return None;
                }
            }
            proof {
                if i > 0 {
                    assert forall|m: int| 0 <= m < i implies bytes_lt(
                        (#[trigger] authors@[m])@,
                        a@,
                    ) by {
                        if m < i - 1 {
                            crate::object_id::lemma_bytes_lt_transitive(
                                authors@[m]@,
                                authors@[i - 1]@,
                                a@,
                            );
                        }
                    }
                }
            }
            authors.push(a);
            i = i + 1;
        }
        let message: String = s.substring_char(after_a, len).to_owned();
        let c = Commit { tree, parents, message, authors, timestamp: ts };
        proof {
            lemma_commit_assembled(s@, c, after_p as int, after_a as int);
        }
        Some(c)
    }

    /// The identity of this commit: the digest of its canonical text's
    /// bytes. Everything the commit records takes part in its identity.
    pub fn object_id(&self) -> (r: ObjectID)
        requires
            commit_wf(*self),
        ensures
            r@ == digest_of(encode_utf8(commit_chars(*self))),
            r.well_formed(),
    {
        let text = self.encode();
        let bytes = text.as_str().as_bytes_vec();
        ObjectID::of(bytes.as_slice())
    }
}

} // verus!
