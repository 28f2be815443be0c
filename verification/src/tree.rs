//! The snapshot tree: a directory structure whose leaves are object
//! identifiers of file contents. Entries are kept strictly sorted by name, so
//! equal content always yields the one canonical value.

use vstd::prelude::*;

use crate::object_id::ObjectID;
use crate::text::{lex_lt, str_compare};

verus! {

broadcast use vstd::std_specs::vec::group_vec_axioms;

/// One named member of a snapshot tree: a file's content identifier, or a
/// nested directory owned by this tree.
#[derive(Debug)]
pub enum DirectoryEntry {
    /// A file, named by the identifier of its content bytes.
    File(ObjectID),
    /// A nested directory with its own entries.
    Directory(SnapShotTree),
}

/// A directory tree with object identifiers at the leaves, its entries
/// strictly sorted by name.
#[derive(Debug)]
pub struct SnapShotTree {
    /// The named members, strictly sorted by name.
    pub entries: Vec<(String, DirectoryEntry)>,
}

/// Well-formedness of an entry: identifiers hold a full digest and nested
/// trees are well-formed.
pub open spec fn entry_wf(e: DirectoryEntry) -> bool
    decreases e,
{
    match e {
        DirectoryEntry::File(id) => id.well_formed(),
        DirectoryEntry::Directory(t) => tree_wf(t),
    }
}

/// Well-formedness of an entry list: every entry is well-formed.
pub open spec fn entries_wf(es: Seq<(String, DirectoryEntry)>) -> bool
    decreases es,
{
    es.len() == 0 || (entry_wf(es[0].1) && entries_wf(es.drop_first()))
}

/// Entry names strictly ascending in lexicographic order; names are unique.
pub open spec fn entries_sorted(es: Seq<(String, DirectoryEntry)>) -> bool {
    forall|i: int, j: int| 0 <= i < j < es.len() ==> lex_lt(#[trigger] es[i].0@, #[trigger] es[j].0@)
}

/// Well-formedness of a tree: entries sorted and each entry well-formed.
pub open spec fn tree_wf(t: SnapShotTree) -> bool
    decreases t,
{
    entries_sorted(t.entries@) && entries_wf(t.entries@)
}

/// The entry stored under `name` in an entry list, if any.
pub open spec fn lookup_entries(es: Seq<(String, DirectoryEntry)>, name: Seq<char>) -> Option<
    DirectoryEntry,
>
    decreases es.len(),
{
    if es.len() == 0 {
        None
    } else if es[0].0@ == name {
        Some(es[0].1)
    } else {
        lookup_entries(es.drop_first(), name)
    }
}

/// The entry stored under `name` in a tree, if any.
pub open spec fn tree_get(t: SnapShotTree, name: Seq<char>) -> Option<DirectoryEntry> {
    lookup_entries(t.entries@, name)
}

/// Whether a tree has an entry under `name`.
pub open spec fn tree_has(t: SnapShotTree, name: Seq<char>) -> bool {
    tree_get(t, name) is Some
}

/// Value equality of entries: equal file identifiers, or value-equal trees.
pub open spec fn entry_equiv(a: DirectoryEntry, b: DirectoryEntry) -> bool
    decreases a,
{
    match (a, b) {
        (DirectoryEntry::File(x), DirectoryEntry::File(y)) => x@ == y@,
        (DirectoryEntry::Directory(s), DirectoryEntry::Directory(u)) => tree_equiv(s, u),
        _ => false,
    }
}

/// Value equality of entry lists: same names with value-equal entries, in the
/// same order.
pub open spec fn entries_equiv(
    a: Seq<(String, DirectoryEntry)>,
    b: Seq<(String, DirectoryEntry)>,
) -> bool
    decreases a,
{
    a.len() == b.len() && (a.len() == 0 || (a[0].0@ == b[0].0@ && entry_equiv(a[0].1, b[0].1)
        && entries_equiv(a.drop_first(), b.drop_first())))
}

/// Structural value equality of trees. Two trees built from the same content
/// are equal in this sense, whatever order their entries were added in.
pub open spec fn tree_equiv(a: SnapShotTree, b: SnapShotTree) -> bool
    decreases a,
{
    entries_equiv(a.entries@, b.entries@)
}

impl SnapShotTree {
    /// The entry list, for specification purposes.
    pub open spec fn spec_entries(&self) -> Seq<(String, DirectoryEntry)> {
        self.entries@
    }

    /// An empty tree: a present directory with no entries, distinct from an
    /// absent one.
    pub fn new() -> (t: Self)
        ensures
            t.spec_entries().len() == 0,
            tree_wf(t),
    {
        SnapShotTree { entries: Vec::new() }
    }

    /// How many entries the tree holds directly.
    pub fn entry_count(&self) -> (n: usize)
        ensures
            n == self.spec_entries().len(),
    {
        self.entries.len()
    }

    /// The entry at a position, in name order.
    pub fn entry_at(&self, i: usize) -> (r: &(String, DirectoryEntry))
        requires
            i < self.spec_entries().len(),
        ensures
            *r == self.spec_entries()[i as int],
    {
        &self.entries[i]
    }

    /// The entry stored under `name`, if any.
    pub fn get(&self, name: &str) -> (r: Option<&DirectoryEntry>)
        ensures
            match r {
                Some(e) => tree_get(*self, name@) == Some(*e),
                None => tree_get(*self, name@) is None,
            },
    {
        let mut i: usize = 0;
        proof {
            assert(self.entries@.skip(0) =~= self.entries@);
        }
        while i < self.entries.len()
            invariant
                i <= self.entries@.len(),
                lookup_entries(self.entries@, name@) == lookup_entries(
                    self.entries@.skip(i as int),
                    name@,
                ),
            decreases self.entries@.len() - i,
        {
            proof {
                assert(self.entries@.skip(i as int).drop_first() =~= self.entries@.skip(
                    i + 1,
                ));
                assert(self.entries@.skip(i as int)[0] == self.entries@[i as int]);
            }
            let order = str_compare(self.entries[i].0.as_str(), name);
            if order == 0 {
                return Some(&self.entries[i].1);
            }
            proof {
                crate::text::lemma_lex_trichotomy(self.entries@[i as int].0@, name@);
            }
            i = i + 1;
        }
        proof {
            assert(self.entries@.skip(i as int) =~= Seq::<(String, DirectoryEntry)>::empty());
        }
        None
    }
}

impl DirectoryEntry {
    /// A value-equal deep copy of this entry.
    pub fn duplicate(&self) -> (r: Self)
        ensures
            entry_equiv(*self, r),
        decreases *self,
    {
        match self {
            DirectoryEntry::File(id) => DirectoryEntry::File(id.duplicate()),
            DirectoryEntry::Directory(t) => DirectoryEntry::Directory(t.duplicate()),
        }
    }

    /// Whether two entries hold the same value.
    pub fn equal_value(&self, other: &DirectoryEntry) -> (r: bool)
        ensures
            r == entry_equiv(*self, *other),
        decreases *self,
    {
        match (self, other) {
            (DirectoryEntry::File(a), DirectoryEntry::File(b)) => a == b,
            (DirectoryEntry::Directory(a), DirectoryEntry::Directory(b)) => a.equal_value(b),
            _ => false,
        }
    }
}

impl SnapShotTree {
    /// A value-equal deep copy of this tree.
    pub fn duplicate(&self) -> (r: Self)
        ensures
            tree_equiv(*self, r),
        decreases *self,
    {
        let mut out: Vec<(String, DirectoryEntry)> = Vec::new();
        let mut i: usize = 0;
        while i < self.entries.len()
            invariant
                i <= self.entries@.len(),
                entries_equiv(self.entries@.take(i as int), out@),
            decreases self.entries@.len() - i,
        {
            let name = self.entries[i].0.clone();
            let copy = self.entries[i].1.duplicate();
            proof {
                lemma_entries_equiv_push(
                    self.entries@.take(i as int),
                    out@,
                    self.entries@[i as int],
                    (name, copy),
                );
                assert(self.entries@.take(i + 1) =~= self.entries@.take(i as int).push(
                    self.entries@[i as int],
                ));
            }
            out.push((name, copy));
            i = i + 1;
        }
        proof {
            assert(self.entries@.take(self.entries@.len() as int) =~= self.entries@);
        }
        SnapShotTree { entries: out }
    }

    /// Whether two trees hold the same value: the same names mapped to
    /// value-equal entries.
    pub fn equal_value(&self, other: &SnapShotTree) -> (r: bool)
        ensures
            r == tree_equiv(*self, *other),
        decreases *self,
    {
        proof {
            lemma_entries_equiv_index(self.entries@, other.entries@);
        }
        if self.entries.len() != other.entries.len() {
            return false;
        }
        let mut i: usize = 0;
        while i < self.entries.len()
            invariant
                self.entries@.len() == other.entries@.len(),
                i <= self.entries@.len(),
                forall|j: int|
                    0 <= j < i ==> ((#[trigger] self.entries@[j]).0@ == other.entries@[j].0@
                        && entry_equiv(self.entries@[j].1, other.entries@[j].1)),
            decreases self.entries@.len() - i,
        {
            let order = str_compare(self.entries[i].0.as_str(), other.entries[i].0.as_str());
            if order != 0 {
                proof {
                    crate::text::lemma_lex_trichotomy(
                        self.entries@[i as int].0@,
                        other.entries@[i as int].0@,
                    );
                    lemma_entries_equiv_index(self.entries@, other.entries@);
                }
                return false;
            }
            if !self.entries[i].1.equal_value(&other.entries[i].1) {
                proof {
                    lemma_entries_equiv_index(self.entries@, other.entries@);
                }
                return false;
            }
            i = i + 1;
        }
        proof {
            lemma_entries_equiv_index(self.entries@, other.entries@);
        }
        true
    }
}

/// Equivalence of pushed lists follows from equivalence of the lists and of
/// the pushed pairs.
pub proof fn lemma_entries_equiv_push(
    a: Seq<(String, DirectoryEntry)>,
    b: Seq<(String, DirectoryEntry)>,
    x: (String, DirectoryEntry),
    y: (String, DirectoryEntry),
)
    requires
        entries_equiv(a, b),
        x.0@ == y.0@,
        entry_equiv(x.1, y.1),
    ensures
        entries_equiv(a.push(x), b.push(y)),
    decreases a.len(),
{
    if a.len() == 0 {
        assert(a.push(x)[0] == x);
        assert(b.push(y)[0] == y);
        assert(a.push(x).drop_first() =~= Seq::<(String, DirectoryEntry)>::empty());
        assert(b.push(y).drop_first() =~= Seq::<(String, DirectoryEntry)>::empty());
        assert(entries_equiv(a.push(x).drop_first(), b.push(y).drop_first()));
        assert(entries_equiv(a.push(x), b.push(y)));
    } else {
        lemma_entries_equiv_push(a.drop_first(), b.drop_first(), x, y);
        assert(a.push(x).drop_first() =~= a.drop_first().push(x));
        assert(b.push(y).drop_first() =~= b.drop_first().push(y));
        assert(a.push(x)[0] == a[0]);
        assert(b.push(y)[0] == b[0]);
        assert(entries_equiv(a.push(x).drop_first(), b.push(y).drop_first()));
        assert(entries_equiv(a.push(x), b.push(y)));
    }
}

/// List equivalence is the same as position-wise equivalence.
pub proof fn lemma_entries_equiv_index(
    a: Seq<(String, DirectoryEntry)>,
    b: Seq<(String, DirectoryEntry)>,
)
    ensures
        entries_equiv(a, b) <==> (a.len() == b.len() && (forall|i: int|
            0 <= i < a.len() ==> ((#[trigger] a[i]).0@ == b[i].0@ && entry_equiv(
                a[i].1,
                b[i].1,
            )))),
    decreases a.len(),
{
    if a.len() > 0 && a.len() == b.len() {
        lemma_entries_equiv_index(a.drop_first(), b.drop_first());
        if entries_equiv(a, b) {
            assert forall|i: int|
                0 <= i < a.len() implies ((#[trigger] a[i]).0@ == b[i].0@ && entry_equiv(
                a[i].1,
                b[i].1,
            )) by {
                if i > 0 {
                    assert(a.drop_first()[i - 1] == a[i]);
                    assert(b.drop_first()[i - 1] == b[i]);
                }
            }
        }
        if forall|i: int|
            0 <= i < a.len() ==> ((#[trigger] a[i]).0@ == b[i].0@ && entry_equiv(a[i].1, b[i].1)) {
            assert forall|i: int|
                0 <= i < a.drop_first().len() implies ((#[trigger] a.drop_first()[i]).0@
                == b.drop_first()[i].0@ && entry_equiv(
                a.drop_first()[i].1,
                b.drop_first()[i].1,
            )) by {
                assert(a.drop_first()[i] == a[i + 1]);
                assert(b.drop_first()[i] == b[i + 1]);
            }
        }
    }
}

/// Every entry equals itself in value.
pub proof fn lemma_entry_equiv_refl(e: DirectoryEntry)
    ensures
        entry_equiv(e, e),
    decreases e,
{
    match e {
        DirectoryEntry::File(_) => {
        },
        DirectoryEntry::Directory(t) => {
            lemma_entries_equiv_refl(t.entries@);
        },
    }
}

/// Every entry list equals itself in value.
pub proof fn lemma_entries_equiv_refl(es: Seq<(String, DirectoryEntry)>)
    ensures
        entries_equiv(es, es),
    decreases es,
{
    if es.len() > 0 {
        lemma_entry_equiv_refl(es[0].1);
        lemma_entries_equiv_refl(es.drop_first());
    }
}

/// Value equality of entries is symmetric.
pub proof fn lemma_entry_equiv_symm(a: DirectoryEntry, b: DirectoryEntry)
    requires
        entry_equiv(a, b),
    ensures
        entry_equiv(b, a),
    decreases a,
{
    match (a, b) {
        (DirectoryEntry::Directory(s), DirectoryEntry::Directory(u)) => {
            lemma_entries_equiv_symm(s.entries@, u.entries@);
        },
        _ => {
        },
    }
}

/// Value equality of entry lists is symmetric.
pub proof fn lemma_entries_equiv_symm(
    a: Seq<(String, DirectoryEntry)>,
    b: Seq<(String, DirectoryEntry)>,
)
    requires
        entries_equiv(a, b),
    ensures
        entries_equiv(b, a),
    decreases a,
{
    if a.len() > 0 {
        lemma_entry_equiv_symm(a[0].1, b[0].1);
        lemma_entries_equiv_symm(a.drop_first(), b.drop_first());
    }
}

/// Value-equal entry lists answer every lookup with value-equal results.
pub proof fn lemma_equiv_lookup(
    a: Seq<(String, DirectoryEntry)>,
    b: Seq<(String, DirectoryEntry)>,
    name: Seq<char>,
)
    requires
        entries_equiv(a, b),
    ensures
        match (lookup_entries(a, name), lookup_entries(b, name)) {
            (Option::None, Option::None) => true,
            (Option::Some(x), Option::Some(y)) => entry_equiv(x, y),
            _ => false,
        },
    decreases a,
{
    if a.len() > 0 && a[0].0@ != name {
        lemma_equiv_lookup(a.drop_first(), b.drop_first(), name);
    }
}

/// Entry-wise well-formedness is the same as well-formedness of each entry.
pub proof fn lemma_entries_wf_index(es: Seq<(String, DirectoryEntry)>)
    ensures
        entries_wf(es) <==> (forall|i: int| 0 <= i < es.len() ==> entry_wf(#[trigger] es[i].1)),
    decreases es.len(),
{
    if es.len() > 0 {
        lemma_entries_wf_index(es.drop_first());
        if entries_wf(es) {
            assert forall|i: int| 0 <= i < es.len() implies entry_wf(#[trigger] es[i].1) by {
                if i > 0 {
                    assert(es.drop_first()[i - 1] == es[i]);
                }
            }
        }
        if forall|i: int| 0 <= i < es.len() ==> entry_wf(#[trigger] es[i].1) {
            assert forall|i: int|
                0 <= i < es.drop_first().len() implies entry_wf(
                #[trigger] es.drop_first()[i].1,
            ) by {
                assert(es.drop_first()[i] == es[i + 1]);
            }
        }
    }
}

/// Looking a name up in a concatenation first searches the left part.
pub proof fn lemma_lookup_append(
    a: Seq<(String, DirectoryEntry)>,
    b: Seq<(String, DirectoryEntry)>,
    name: Seq<char>,
)
    ensures
        lookup_entries(a + b, name) == (match lookup_entries(a, name) {
            Some(e) => Some(e),
            None => lookup_entries(b, name),
        }),
    decreases a.len(),
{
    if a.len() == 0 {
        assert(a + b =~= b);
    } else {
        assert((a + b).drop_first() =~= a.drop_first() + b);
        assert((a + b)[0] == a[0]);
        lemma_lookup_append(a.drop_first(), b, name);
    }
}

/// A name that no entry carries is not found.
pub proof fn lemma_lookup_none(es: Seq<(String, DirectoryEntry)>, name: Seq<char>)
    requires
        forall|i: int| 0 <= i < es.len() ==> (#[trigger] es[i].0)@ != name,
    ensures
        lookup_entries(es, name) is None,
    decreases es.len(),
{
    if es.len() > 0 {
        assert forall|i: int|
            0 <= i < es.drop_first().len() implies (#[trigger] es.drop_first()[i].0)@
            != name by {
            assert(es.drop_first()[i] == es[i + 1]);
        }
        lemma_lookup_none(es.drop_first(), name);
    }
}

impl SnapShotTree {
    /// Stores `entry` under `name`, keeping the entries sorted: an existing
    /// entry of that name is replaced, any other entry is untouched.
    pub fn insert(&mut self, name: String, entry: DirectoryEntry)
        requires
            tree_wf(*old(self)),
            entry_wf(entry),
        ensures
            tree_wf(*final(self)),
            tree_get(*final(self), name@) == Some(entry),
            forall|n: Seq<char>| n != name@ ==> tree_get(*final(self), n) == tree_get(
                *old(self),
                n,
            ),
    {
        let ghost es0 = self.entries@;
        let mut j: usize = 0;
        while j < self.entries.len() && str_compare(
            name.as_str(),
            self.entries[j].0.as_str(),
        ) == 1
            invariant
                self.entries@ == es0,
                j <= es0.len(),
                forall|k: int| 0 <= k < j ==> lex_lt((#[trigger] es0[k].0)@, name@),
            decreases es0.len() - j,
        {
            j = j + 1;
        }
        proof {
            lemma_entries_wf_index(es0);
        }
        if j < self.entries.len() && str_compare(name.as_str(), self.entries[j].0.as_str())
            == 0 {
            let ghost replaced = es0[j as int];
            self.entries[j] = (name, entry);
            proof {
                let es1 = self.entries@;
                assert(es1 == es0.update(j as int, (name, entry)));
                assert forall|i: int| 0 <= i < es1.len() implies entry_wf(
                    #[trigger] es1[i].1,
                ) by {
                    if i != j {
                        assert(es1[i] == es0[i]);
                    }
                }
                lemma_entries_wf_index(es1);
                assert forall|i: int, k: int| 0 <= i < k < es1.len() implies lex_lt(
                    (#[trigger] es1[i].0)@,
                    (#[trigger] es1[k].0)@,
                ) by {
                    assert(es1[j as int].0@ == replaced.0@);
                    assert(lex_lt(es0[i].0@, es0[k].0@));
                }
                assert(es1 =~= es1.take(j as int) + seq![(name, entry)] + es1.skip(j + 1));
                lemma_lookup_append(
                    es1.take(j as int) + seq![(name, entry)],
                    es1.skip(j + 1),
                    name@,
                );
                lemma_lookup_append(es1.take(j as int), seq![(name, entry)], name@);
                assert forall|k: int|
                    0 <= k < es1.take(j as int).len() implies (#[trigger] es1.take(
                    j as int,
                )[k].0)@ != name@ by {
                    assert(es1.take(j as int)[k] == es0[k]);
                    crate::text::lemma_lex_trichotomy(es0[k].0@, name@);
                }
                lemma_lookup_none(es1.take(j as int), name@);
                assert(lookup_entries(seq![(name, entry)], name@) == Some(entry));
                assert(tree_get(*self, name@) == Some(entry));
                assert forall|n: Seq<char>| n != name@ implies lookup_entries(es1, n)
                    == lookup_entries(es0, n) by {
                    lemma_lookup_split_at(es0, j as int, n);
                    lemma_lookup_split_at(es1, j as int, n);
                    assert(es1.take(j as int) =~= es0.take(j as int));
                    assert(es1.skip(j + 1) =~= es0.skip(j + 1));
                    assert(es0[j as int].0@ == name@);
                    assert(es1[j as int].0@ == name@);
                }
            }
        } else {
            proof {
                if j < es0.len() {
                    crate::text::lemma_lex_trichotomy(name@, es0[j as int].0@);
                }
            }
            self.entries.insert(j, (name, entry));
            proof {
                let es1 = self.entries@;
                assert(es1 == es0.insert(j as int, (name, entry)));
                assert forall|i: int| 0 <= i < es1.len() implies entry_wf(
                    #[trigger] es1[i].1,
                ) by {
                    if i < j {
                        assert(es1[i] == es0[i]);
                    } else if i > j {
                        assert(es1[i] == es0[i - 1]);
                    }
                }
                lemma_entries_wf_index(es1);
                assert forall|i: int, k: int| 0 <= i < k < es1.len() implies lex_lt(
                    (#[trigger] es1[i].0)@,
                    (#[trigger] es1[k].0)@,
                ) by {
                    lemma_sorted_after_insert(es0, j as int, name@, i, k);
                    if i < j {
                        assert(es1[i] == es0[i]);
                    } else if i > j {
                        assert(es1[i] == es0[i - 1]);
                    }
                    if k < j {
                        assert(es1[k] == es0[k]);
                    } else if k > j {
                        assert(es1[k] == es0[k - 1]);
                    }
                }
                lemma_lookup_split_at(es1, j as int, name@);
                assert forall|k: int|
                    0 <= k < es1.take(j as int).len() implies (#[trigger] es1.take(
                    j as int,
                )[k].0)@ != name@ by {
                    assert(es1.take(j as int)[k] == es0[k]);
                    crate::text::lemma_lex_trichotomy(es0[k].0@, name@);
                }
                lemma_lookup_none(es1.take(j as int), name@);
                assert(es1[j as int] == (name, entry));
                assert(tree_get(*self, name@) == Some(entry));
                assert forall|n: Seq<char>| n != name@ implies lookup_entries(es1, n)
                    == lookup_entries(es0, n) by {
                    lemma_lookup_split_at(es1, j as int, n);
                    assert(es1.take(j as int) =~= es0.take(j as int));
                    assert(es1.skip(j + 1) =~= es0.skip(j as int));
                    lemma_lookup_append(es0.take(j as int), es0.skip(j as int), n);
                    assert(es0 =~= es0.take(j as int) + es0.skip(j as int));
                }
            }
        }
    }
}

/// In a sorted list, all names before position `j` come before `es0[j]`'s
/// successor position after inserting a name that splits the order at `j`.
proof fn lemma_sorted_after_insert(
    es0: Seq<(String, DirectoryEntry)>,
    j: int,
    name: Seq<char>,
    i: int,
    k: int,
)
    requires
        entries_sorted(es0),
        0 <= j <= es0.len(),
        forall|m: int| 0 <= m < j ==> lex_lt((#[trigger] es0[m].0)@, name),
        j < es0.len() ==> lex_lt(name, es0[j].0@),
    ensures
        0 <= i < j && k == j ==> lex_lt(es0[i].0@, name),
        i == j && j <= k - 1 < es0.len() ==> lex_lt(name, es0[k - 1].0@),
{
    if i == j && j <= k - 1 < es0.len() && k - 1 > j {
        crate::text::lemma_lex_transitive(name, es0[j].0@, es0[k - 1].0@);
    }
}

/// Splits a lookup at one position of the entry list.
pub proof fn lemma_lookup_split_at(es: Seq<(String, DirectoryEntry)>, j: int, name: Seq<char>)
    requires
        0 <= j < es.len(),
    ensures
        lookup_entries(es, name) == (match lookup_entries(es.take(j), name) {
            Some(e) => Some(e),
            None => if es[j].0@ == name {
                Some(es[j].1)
            } else {
                lookup_entries(es.skip(j + 1), name)
            },
        }),
{
    assert(es =~= es.take(j) + seq![es[j]] + es.skip(j + 1));
    lemma_lookup_append(es.take(j) + seq![es[j]], es.skip(j + 1), name);
    lemma_lookup_append(es.take(j), seq![es[j]], name);
    assert(seq![es[j]].drop_first() =~= Seq::<(String, DirectoryEntry)>::empty());
    assert(seq![es[j]].len() == 1);
    assert(seq![es[j]][0] == es[j]);
    assert(lookup_entries(Seq::<(String, DirectoryEntry)>::empty(), name) is None);
    assert(lookup_entries(seq![es[j]], name) == (if es[j].0@ == name {
        Some(es[j].1)
    } else {
        Option::<DirectoryEntry>::None
    }));
}

} // verus!
