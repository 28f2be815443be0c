//! The structural difference between two snapshot trees: which entries were
//! deleted, added, or modified, with nested differences for directories that
//! changed inside.

use vstd::prelude::*;

use crate::object_id::ObjectID;
use crate::text::{lex_lt, str_compare};
use crate::tree::{
    entries_equiv, entries_sorted, entries_wf, entry_equiv, entry_wf, lookup_entries, tree_equiv,
    tree_get, tree_has, tree_wf, DirectoryEntry, SnapShotTree,
};

verus! {

broadcast use vstd::std_specs::vec::group_vec_axioms;

/// How one entry changed: a file with its new content identifier, or a
/// directory with the nested difference inside it.
#[derive(Debug)]
pub enum DifferenceEntry {
    /// The entry is now a file with this content identifier.
    File(ObjectID),
    /// The entry is a directory on both sides; this is what changed inside.
    Directory(Box<SnapShotDifference>),
}

/// The difference between two snapshot trees, entry by entry. Each list is
/// strictly sorted by name.
#[derive(Debug)]
pub struct SnapShotDifference {
    /// Names present only in the old tree.
    pub deleted: Vec<String>,
    /// Entries present only in the new tree, with their full values.
    pub added: Vec<(String, DirectoryEntry)>,
    /// Names present in both trees whose values differ.
    pub modified: Vec<(String, DifferenceEntry)>,
}

/// The three ways a path can appear in a rendered change list.
#[derive(Copy, Clone, Debug)]
pub enum DifferenceStackType {
    /// The path was deleted.
    Deleted,
    /// The path was added.
    Added,
    /// The path was modified.
    Modified,
}

/// The letter that marks one kind of change in rendered output.
pub open spec fn symbol_of(k: DifferenceStackType) -> char {
    match k {
        DifferenceStackType::Deleted => 'D',
        DifferenceStackType::Added => 'A',
        DifferenceStackType::Modified => 'M',
    }
}

impl DifferenceStackType {
    /// The letter that marks this kind of change in rendered output.
    pub fn character_symbol(&self) -> (c: char)
        ensures
            c == symbol_of(*self),
    {
        match self {
            DifferenceStackType::Deleted => 'D',
            DifferenceStackType::Added => 'A',
            DifferenceStackType::Modified => 'M',
        }
    }
}

/// Whether a name list holds `n`.
pub open spec fn names_contain(ns: Seq<String>, n: Seq<char>) -> bool {
    exists|i: int| 0 <= i < ns.len() && (#[trigger] ns[i])@ == n
}

/// The change recorded under `name`, if any.
pub open spec fn lookup_changes(ms: Seq<(String, DifferenceEntry)>, name: Seq<char>) -> Option<
    DifferenceEntry,
>
    decreases ms.len(),
{
    if ms.len() == 0 {
        None
    } else if ms[0].0@ == name {
        Some(ms[0].1)
    } else {
        lookup_changes(ms.drop_first(), name)
    }
}

/// Name lists strictly ascending in lexicographic order.
pub open spec fn names_sorted(ns: Seq<String>) -> bool {
    forall|i: int, j: int| 0 <= i < j < ns.len() ==> lex_lt((#[trigger] ns[i])@, (#[trigger] ns[j])@)
}

/// Change lists strictly ascending by name.
pub open spec fn changes_sorted(ms: Seq<(String, DifferenceEntry)>) -> bool {
    forall|i: int, j: int|
        0 <= i < j < ms.len() ==> lex_lt((#[trigger] ms[i]).0@, (#[trigger] ms[j]).0@)
}

/// Well-formedness of one recorded change.
pub open spec fn change_wf(ch: DifferenceEntry) -> bool
    decreases ch,
{
    match ch {
        DifferenceEntry::File(id) => id.well_formed(),
        DifferenceEntry::Directory(sd) => diff_wf(*sd),
    }
}

/// Well-formedness of a change list: every change well-formed.
pub open spec fn changes_wf(ms: Seq<(String, DifferenceEntry)>) -> bool
    decreases ms,
{
    ms.len() == 0 || (change_wf(ms[0].1) && changes_wf(ms.drop_first()))
}

/// Well-formedness of a difference: each list strictly sorted by name, added
/// entries and recorded changes well-formed.
pub open spec fn diff_wf(d: SnapShotDifference) -> bool
    decreases d,
{
    names_sorted(d.deleted@) && entries_sorted(d.added@) && changes_sorted(d.modified@)
        && entries_wf(d.added@) && changes_wf(d.modified@)
}

/// Whether one recorded change correctly describes how the entry under one
/// name differs between the old side `ae` and the new side `be`.
pub open spec fn entry_change_describes(ae: DirectoryEntry, be: DirectoryEntry, ch: DifferenceEntry) -> bool
    decreases ch,
{
    match ch {
        DifferenceEntry::File(id) => match (ae, be) {
            (DirectoryEntry::File(aid), DirectoryEntry::File(bid)) => aid@ != bid@ && id@ == bid@,
            (DirectoryEntry::Directory(_), DirectoryEntry::File(bid)) => id@ == bid@,
            _ => false,
        },
        DifferenceEntry::Directory(sd) => match (ae, be) {
            (DirectoryEntry::File(_), DirectoryEntry::Directory(bt)) => sd.deleted@.len() == 0
                && sd.modified@.len() == 0 && entries_equiv(sd.added@, bt.entries@),
            (DirectoryEntry::Directory(at), DirectoryEntry::Directory(bt)) => !tree_equiv(at, bt)
                && diff_describes(at, bt, *sd),
            _ => false,
        },
    }
}

/// Whether every change in the list correctly describes, for its name, how
/// the trees differ.
pub open spec fn changes_describe(
    a: SnapShotTree,
    b: SnapShotTree,
    ms: Seq<(String, DifferenceEntry)>,
) -> bool
    decreases ms,
{
    ms.len() == 0 || ((match (tree_get(a, ms[0].0@), tree_get(b, ms[0].0@)) {
        (Some(ae), Some(be)) => entry_change_describes(ae, be, ms[0].1),
        _ => false,
    }) && changes_describe(a, b, ms.drop_first()))
}

/// Whether every added entry records, for its name, the value the new tree
/// holds under a name the old tree lacks.
pub open spec fn additions_describe(
    a: SnapShotTree,
    b: SnapShotTree,
    es: Seq<(String, DirectoryEntry)>,
) -> bool
    decreases es,
{
    es.len() == 0 || (!tree_has(a, es[0].0@) && (match tree_get(b, es[0].0@) {
        Some(be) => entry_equiv(es[0].1, be),
        None => false,
    }) && additions_describe(a, b, es.drop_first()))
}

/// The full statement that `d` is the difference from tree `a` to tree `b`:
/// the deletions are exactly the names only `a` holds; the additions exactly
/// the entries under names only `b` holds, with `b`'s values; the
/// modifications exactly the names both hold with differing values, each
/// described by the per-entry rule.
pub open spec fn diff_describes(a: SnapShotTree, b: SnapShotTree, d: SnapShotDifference) -> bool
    decreases d,
{
    &&& forall|i: int|
        0 <= i < d.deleted@.len() ==> tree_has(a, (#[trigger] d.deleted@[i])@) && !tree_has(
            b,
            d.deleted@[i]@,
        )
    &&& forall|n: Seq<char>|
        tree_has(a, n) && !tree_has(b, n) ==> names_contain(d.deleted@, n)
    &&& additions_describe(a, b, d.added@)
    &&& forall|n: Seq<char>|
        tree_has(b, n) && !tree_has(a, n) ==> lookup_entries(d.added@, n) is Some
    &&& changes_describe(a, b, d.modified@)
    &&& forall|n: Seq<char>|
        #![trigger tree_get(a, n), tree_get(b, n)]
        match (tree_get(a, n), tree_get(b, n)) {
            (Some(ae), Some(be)) => entry_equiv(ae, be) || lookup_changes(d.modified@, n) is Some,
            _ => true,
        }
}

/// A value-equal entry is well-formed when the original is.
pub proof fn lemma_entry_equiv_preserves_wf(x: DirectoryEntry, y: DirectoryEntry)
    requires
        entry_wf(x),
        entry_equiv(x, y),
    ensures
        entry_wf(y),
    decreases x,
{
    match (x, y) {
        (DirectoryEntry::Directory(s), DirectoryEntry::Directory(u)) => {
            lemma_entries_equiv_preserves_wf(s.entries@, u.entries@);
        },
        _ => {
        },
    }
}

/// A value-equal entry list is well-formed and keeps its order when the
/// original list is well-formed and sorted.
pub proof fn lemma_entries_equiv_preserves_wf(
    a: Seq<(String, DirectoryEntry)>,
    b: Seq<(String, DirectoryEntry)>,
)
    requires
        entries_equiv(a, b),
    ensures
        entries_wf(a) ==> entries_wf(b),
        entries_sorted(a) ==> entries_sorted(b),
    decreases a,
{
    crate::tree::lemma_entries_equiv_index(a, b);
    if entries_wf(a) {
        crate::tree::lemma_entries_wf_index(a);
        assert forall|i: int| 0 <= i < b.len() implies entry_wf(#[trigger] b[i].1) by {
            lemma_entry_equiv_preserves_wf(a[i].1, b[i].1);
        }
        crate::tree::lemma_entries_wf_index(b);
    }
    if entries_sorted(a) {
        assert forall|i: int, j: int| 0 <= i < j < b.len() implies lex_lt(
            (#[trigger] b[i]).0@,
            (#[trigger] b[j]).0@,
        ) by {
            assert(lex_lt(a[i].0@, a[j].0@));
        }
    }
}

impl DirectoryEntry {
    /// The change from this entry to `other`, under one shared name: nothing
    /// when the values are equal; the new file identifier when the new side is
    /// a file; the nested difference when both sides are directories; and for
    /// a file that became a directory, a nested difference that adds the whole
    /// new directory content.
    pub fn difference(&self, other: &DirectoryEntry) -> (r: Option<DifferenceEntry>)
        requires
            entry_wf(*self),
            entry_wf(*other),
        ensures
            match r {
                Some(ch) => change_wf(ch) && entry_change_describes(*self, *other, ch)
                    && !entry_equiv(*self, *other),
                None => entry_equiv(*self, *other),
            },
        decreases *self,
    {
        match (self, other) {
            (DirectoryEntry::File(aid), DirectoryEntry::File(bid)) => {
                if aid == bid {
                    None
                } else {
                    Some(DifferenceEntry::File(bid.duplicate()))
                }
            },
            (DirectoryEntry::Directory(_), DirectoryEntry::File(bid)) => {
                Some(DifferenceEntry::File(bid.duplicate()))
            },
            (DirectoryEntry::File(_), DirectoryEntry::Directory(bt)) => {
                let copy = bt.duplicate();
                proof {
                    crate::tree::lemma_entries_equiv_symm(bt.entries@, copy.spec_entries());
                    lemma_entries_equiv_preserves_wf(bt.entries@, copy.spec_entries());
                }
                Some(
                    DifferenceEntry::Directory(
                        Box::new(
                            SnapShotDifference {
                                deleted: Vec::new(),
                                added: copy.entries,
                                modified: Vec::new(),
                            },
                        ),
                    ),
                )
            },
            (DirectoryEntry::Directory(at), DirectoryEntry::Directory(bt)) => {
                if at.equal_value(bt) {
                    None
                } else {
                    Some(DifferenceEntry::Directory(Box::new(at.difference(bt))))
                }
            },
        }
    }
}

/// Appending a well-formed entry keeps an entry list well-formed.
pub proof fn lemma_entries_wf_push(es: Seq<(String, DirectoryEntry)>, x: (String, DirectoryEntry))
    requires
        entries_wf(es),
        entry_wf(x.1),
    ensures
        entries_wf(es.push(x)),
    decreases es.len(),
{
    if es.len() == 0 {
        assert(es.push(x)[0] == x);
        assert(es.push(x).drop_first() =~= Seq::<(String, DirectoryEntry)>::empty());
        assert(entries_wf(es.push(x).drop_first()));
        assert(entries_wf(es.push(x)));
    } else {
        lemma_entries_wf_push(es.drop_first(), x);
        assert(es.push(x).drop_first() =~= es.drop_first().push(x));
        assert(es.push(x)[0] == es[0]);
        assert(entries_wf(es.push(x).drop_first()));
        assert(entries_wf(es.push(x)));
    }
}

/// Appending a well-formed change keeps a change list well-formed.
pub proof fn lemma_changes_wf_push(ms: Seq<(String, DifferenceEntry)>, x: (String, DifferenceEntry))
    requires
        changes_wf(ms),
        change_wf(x.1),
    ensures
        changes_wf(ms.push(x)),
    decreases ms.len(),
{
    if ms.len() == 0 {
        assert(ms.push(x)[0] == x);
        assert(ms.push(x).drop_first() =~= Seq::<(String, DifferenceEntry)>::empty());
        assert(changes_wf(ms.push(x).drop_first()));
        assert(changes_wf(ms.push(x)));
    } else {
        lemma_changes_wf_push(ms.drop_first(), x);
        assert(ms.push(x).drop_first() =~= ms.drop_first().push(x));
        assert(ms.push(x)[0] == ms[0]);
        assert(changes_wf(ms.push(x).drop_first()));
        assert(changes_wf(ms.push(x)));
    }
}

/// A list of additions describes the trees exactly when each of its entries
/// does.
pub proof fn lemma_additions_describe_index(
    a: SnapShotTree,
    b: SnapShotTree,
    es: Seq<(String, DirectoryEntry)>,
)
    ensures
        additions_describe(a, b, es) <==> (forall|k: int|
            0 <= k < es.len() ==> !tree_has(a, (#[trigger] es[k]).0@) && (match tree_get(
                b,
                es[k].0@,
            ) {
                Some(be) => entry_equiv(es[k].1, be),
                None => false,
            })),
    decreases es.len(),
{
    if es.len() > 0 {
        lemma_additions_describe_index(a, b, es.drop_first());
        assert forall|k: int| 0 <= k < es.drop_first().len() implies es.drop_first()[k] == es[
            k + 1
        ] by {}
        assert(es.drop_first().len() == es.len() - 1);
        assert(es[0] == es[0]);
        if additions_describe(a, b, es) {
            assert forall|k: int|
                0 <= k < es.len() implies !tree_has(a, (#[trigger] es[k]).0@) && (match tree_get(
                b,
                es[k].0@,
            ) {
                Some(be) => entry_equiv(es[k].1, be),
                None => false,
            }) by {
                if k > 0 {
                    assert(es.drop_first()[k - 1] == es[k]);
                }
            }
        }
    }
}

/// A list of changes describes the trees exactly when each of its entries
/// does.
pub proof fn lemma_changes_describe_index(
    a: SnapShotTree,
    b: SnapShotTree,
    ms: Seq<(String, DifferenceEntry)>,
)
    ensures
        changes_describe(a, b, ms) <==> (forall|k: int|
            0 <= k < ms.len() ==> (match (tree_get(a, (#[trigger] ms[k]).0@), tree_get(
                b,
                ms[k].0@,
            )) {
                (Some(ae), Some(be)) => entry_change_describes(ae, be, ms[k].1),
                _ => false,
            })),
    decreases ms.len(),
{
    if ms.len() > 0 {
        lemma_changes_describe_index(a, b, ms.drop_first());
        assert forall|k: int| 0 <= k < ms.drop_first().len() implies ms.drop_first()[k] == ms[
            k + 1
        ] by {}
        if changes_describe(a, b, ms) {
            assert forall|k: int|
                0 <= k < ms.len() implies (match (tree_get(a, (#[trigger] ms[k]).0@), tree_get(
                b,
                ms[k].0@,
            )) {
                (Some(ae), Some(be)) => entry_change_describes(ae, be, ms[k].1),
                _ => false,
            }) by {
                if k > 0 {
                    assert(ms.drop_first()[k - 1] == ms[k]);
                }
            }
        }
    }
}

/// A name that no change in a list carries is not found in it.
pub proof fn lemma_lookup_changes_none(ms: Seq<(String, DifferenceEntry)>, name: Seq<char>)
    requires
        forall|i: int| 0 <= i < ms.len() ==> (#[trigger] ms[i].0)@ != name,
    ensures
        lookup_changes(ms, name) is None,
    decreases ms.len(),
{
    if ms.len() > 0 {
        assert forall|i: int|
            0 <= i < ms.drop_first().len() implies (#[trigger] ms.drop_first()[i].0)@
            != name by {
            assert(ms.drop_first()[i] == ms[i + 1]);
        }
        lemma_lookup_changes_none(ms.drop_first(), name);
    }
}

/// A looked-up entry stands somewhere in the list.
pub proof fn lemma_lookup_entries_some_index(es: Seq<(String, DirectoryEntry)>, name: Seq<char>)
    requires
        lookup_entries(es, name) is Some,
    ensures
        exists|i: int| 0 <= i < es.len() && (#[trigger] es[i]).0@ == name && es[i].1
            == lookup_entries(es, name)->Some_0,
    decreases es.len(),
{
    if es.len() > 0 && es[0].0@ != name {
        lemma_lookup_entries_some_index(es.drop_first(), name);
        let i = choose|i: int|
            0 <= i < es.drop_first().len() && (#[trigger] es.drop_first()[i]).0@ == name
                && es.drop_first()[i].1 == lookup_entries(es.drop_first(), name)->Some_0;
        assert(es[i + 1] == es.drop_first()[i]);
    }
}

/// The difference from any tree to itself is empty: whatever value correctly
/// describes the pair records no deletion, no addition and no modification.
pub proof fn lemma_diff_self_empty(t: SnapShotTree, d: SnapShotDifference)
    requires
        diff_describes(t, t, d),
    ensures
        d.deleted@.len() == 0,
        d.added@.len() == 0,
        d.modified@.len() == 0,
{
    if d.deleted@.len() > 0 {
        let n0 = d.deleted@[0];
        assert(tree_has(t, n0@) && !tree_has(t, n0@));
    }
    if d.added@.len() > 0 {
        assert(additions_describe(t, t, d.added@));
        assert(!tree_has(t, d.added@[0].0@));
        assert(tree_get(t, d.added@[0].0@) is Some);
    }
    if d.modified@.len() > 0 {
        assert(changes_describe(t, t, d.modified@));
        let n = d.modified@[0].0@;
        let ch = d.modified@[0].1;
        assert(tree_get(t, n) is Some);
        let ae = tree_get(t, n)->Some_0;
        assert(entry_change_describes(ae, ae, ch));
        match ch {
            DifferenceEntry::File(_) => {
                assert(ae is File);
            },
            DifferenceEntry::Directory(sd) => {
                match ae {
                    DirectoryEntry::Directory(at) => {
                        crate::tree::lemma_entries_equiv_refl(at.entries@);
                    },
                    DirectoryEntry::File(_) => {
                    },
                }
            },
        }
    }
}

/// The difference is anti-symmetric in content direction: a name stands among
/// the additions from `a` to `b` exactly when it stands among the deletions
/// from `b` to `a`.
pub proof fn lemma_diff_antisymmetric(
    a: SnapShotTree,
    b: SnapShotTree,
    d_ab: SnapShotDifference,
    d_ba: SnapShotDifference,
    n: Seq<char>,
)
    requires
        diff_describes(a, b, d_ab),
        diff_describes(b, a, d_ba),
    ensures
        lookup_entries(d_ab.added@, n) is Some <==> names_contain(d_ba.deleted@, n),
{
    crate::tree::lemma_entries_wf_index(d_ab.added@);
    if lookup_entries(d_ab.added@, n) is Some {
        lemma_lookup_entries_some_index(d_ab.added@, n);
        let i = choose|i: int|
            0 <= i < d_ab.added@.len() && (#[trigger] d_ab.added@[i]).0@ == n;
        lemma_additions_describe_index(a, b, d_ab.added@);
        assert(!tree_has(a, n) && tree_has(b, n));
    }
    if names_contain(d_ba.deleted@, n) {
        let i = choose|i: int| 0 <= i < d_ba.deleted@.len() && (#[trigger] d_ba.deleted@[i])@ == n;
        assert(tree_has(b, n) && !tree_has(a, n));
    }
}

/// Looking a name up after appending one pair first searches the old list.
pub proof fn lemma_lookup_push(
    es: Seq<(String, DirectoryEntry)>,
    x: (String, DirectoryEntry),
    n: Seq<char>,
)
    ensures
        lookup_entries(es.push(x), n) == (match lookup_entries(es, n) {
            Some(e) => Some(e),
            None => if x.0@ == n {
                Some(x.1)
            } else {
                None
            },
        }),
{
    assert(es.push(x) =~= es + seq![x]);
    crate::tree::lemma_lookup_append(es, seq![x], n);
    assert(seq![x].drop_first() =~= Seq::<(String, DirectoryEntry)>::empty());
    assert(seq![x][0] == x);
    assert(lookup_entries(Seq::<(String, DirectoryEntry)>::empty(), n) is None);
}

/// Looking a change up after appending one pair first searches the old list.
pub proof fn lemma_lookup_changes_push(
    ms: Seq<(String, DifferenceEntry)>,
    x: (String, DifferenceEntry),
    n: Seq<char>,
)
    ensures
        lookup_changes(ms.push(x), n) == (match lookup_changes(ms, n) {
            Some(e) => Some(e),
            None => if x.0@ == n {
                Some(x.1)
            } else {
                None
            },
        }),
    decreases ms.len(),
{
    if ms.len() == 0 {
        assert(ms.push(x)[0] == x);
        assert(ms.push(x).drop_first() =~= Seq::<(String, DifferenceEntry)>::empty());
        assert(lookup_changes(Seq::<(String, DifferenceEntry)>::empty(), n) is None);
        assert(ms.push(x).len() == 1);
    } else {
        lemma_lookup_changes_push(ms.drop_first(), x, n);
        assert(ms.push(x).drop_first() =~= ms.drop_first().push(x));
        assert(ms.push(x)[0] == ms[0]);
    }
}

/// A name is held by a list with one pair appended exactly when the old list
/// holds it or the appended pair carries it.
pub proof fn lemma_names_contain_push(ns: Seq<String>, x: String, n: Seq<char>)
    ensures
        names_contain(ns.push(x), n) <==> (names_contain(ns, n) || x@ == n),
{
    if names_contain(ns, n) {
        let k = choose|k: int| 0 <= k < ns.len() && (#[trigger] ns[k])@ == n;
        assert(ns.push(x)[k] == ns[k]);
    }
    if x@ == n {
        assert(ns.push(x)[ns.len() as int] == x);
    }
    if names_contain(ns.push(x), n) {
        let k = choose|k: int| 0 <= k < ns.push(x).len() && (#[trigger] ns.push(x)[k])@ == n;
        if k < ns.len() {
            assert(ns[k] == ns.push(x)[k]);
        }
    }
}

impl SnapShotTree {
    /// The structural difference from this tree to `other`: which names were
    /// deleted, which entries added with the new tree's values, and which
    /// entries modified, with nested differences where directories changed
    /// inside.
    pub fn difference(&self, other: &SnapShotTree) -> (d: SnapShotDifference)
        requires
            tree_wf(*self),
            tree_wf(*other),
        ensures
            diff_wf(d),
            diff_describes(*self, *other, d),
        decreases *self,
    {
        let ghost av = self.entries@;
        let ghost bv = other.entries@;
        let mut deleted: Vec<String> = Vec::new();
        let mut added: Vec<(String, DirectoryEntry)> = Vec::new();
        let mut modified: Vec<(String, DifferenceEntry)> = Vec::new();
        let mut i: usize = 0;
        let mut j: usize = 0;
        proof {
            assert(av.take(0) =~= Seq::<(String, DirectoryEntry)>::empty());
            assert(bv.take(0) =~= Seq::<(String, DirectoryEntry)>::empty());
        }
        while i < self.entries.len() || j < other.entries.len()
            invariant
                tree_wf(*self),
                tree_wf(*other),
                av == self.entries@,
                bv == other.entries@,
                i <= av.len(),
                j <= bv.len(),
                names_sorted(deleted@),
                entries_sorted(added@),
                changes_sorted(modified@),
                entries_wf(added@),
                changes_wf(modified@),
                forall|k: int, m: int|
                    0 <= k < deleted@.len() && i <= m < av.len() ==> lex_lt(
                        (#[trigger] deleted@[k])@,
                        (#[trigger] av[m]).0@,
                    ),
                forall|k: int, m: int|
                    0 <= k < deleted@.len() && j <= m < bv.len() ==> lex_lt(
                        (#[trigger] deleted@[k])@,
                        (#[trigger] bv[m]).0@,
                    ),
                forall|k: int, m: int|
                    0 <= k < added@.len() && i <= m < av.len() ==> lex_lt(
                        (#[trigger] added@[k]).0@,
                        (#[trigger] av[m]).0@,
                    ),
                forall|k: int, m: int|
                    0 <= k < added@.len() && j <= m < bv.len() ==> lex_lt(
                        (#[trigger] added@[k]).0@,
                        (#[trigger] bv[m]).0@,
                    ),
                forall|k: int, m: int|
                    0 <= k < modified@.len() && i <= m < av.len() ==> lex_lt(
                        (#[trigger] modified@[k]).0@,
                        (#[trigger] av[m]).0@,
                    ),
                forall|k: int, m: int|
                    0 <= k < modified@.len() && j <= m < bv.len() ==> lex_lt(
                        (#[trigger] modified@[k]).0@,
                        (#[trigger] bv[m]).0@,
                    ),
                forall|m1: int, m2: int|
                    0 <= m1 < j && i <= m2 < av.len() ==> lex_lt(
                        (#[trigger] bv[m1]).0@,
                        (#[trigger] av[m2]).0@,
                    ),
                forall|m1: int, m2: int|
                    0 <= m1 < i && j <= m2 < bv.len() ==> lex_lt(
                        (#[trigger] av[m1]).0@,
                        (#[trigger] bv[m2]).0@,
                    ),
                forall|k: int|
                    0 <= k < deleted@.len() ==> lookup_entries(
                        av.take(i as int),
                        (#[trigger] deleted@[k])@,
                    ) is Some && lookup_entries(bv.take(j as int), deleted@[k]@) is None,
                forall|n: Seq<char>|
                    lookup_entries(av.take(i as int), n) is Some && lookup_entries(
                        bv.take(j as int),
                        n,
                    ) is None ==> names_contain(deleted@, n),
                forall|k: int|
                    0 <= k < added@.len() ==> lookup_entries(
                        av.take(i as int),
                        (#[trigger] added@[k]).0@,
                    ) is None && (match lookup_entries(bv.take(j as int), added@[k].0@) {
                        Some(be) => entry_equiv(added@[k].1, be),
                        None => false,
                    }),
                forall|n: Seq<char>|
                    lookup_entries(bv.take(j as int), n) is Some && lookup_entries(
                        av.take(i as int),
                        n,
                    ) is None ==> lookup_entries(added@, n) is Some,
                forall|k: int|
                    0 <= k < modified@.len() ==> (match (lookup_entries(
                        av.take(i as int),
                        (#[trigger] modified@[k]).0@,
                    ), lookup_entries(bv.take(j as int), modified@[k].0@)) {
                        (Some(x), Some(y)) => entry_change_describes(x, y, modified@[k].1),
                        _ => false,
                    }),
                forall|n: Seq<char>|
                    #![trigger lookup_entries(av.take(i as int), n), lookup_entries(bv.take(j as int), n)]
                    (match (lookup_entries(av.take(i as int), n), lookup_entries(
                        bv.take(j as int),
                        n,
                    )) {
                        (Some(x), Some(y)) => entry_equiv(x, y) || lookup_changes(
                            modified@,
                            n,
                        ) is Some,
                        _ => true,
                    }),
            decreases av.len() - i + bv.len() - j,
        {
            proof {
                crate::tree::lemma_entries_wf_index(av);
                crate::tree::lemma_entries_wf_index(bv);
            }
            let order: i8 = if i >= self.entries.len() {
                1
            } else if j >= other.entries.len() {
                -1
            } else {
                str_compare(self.entries[i].0.as_str(), other.entries[j].0.as_str())
            };
            if order == -1 {
                let ghost na = av[i as int].0@;
                proof {
                    assert forall|k: int| 0 <= k < av.take(i as int).len() implies (
                    #[trigger] av.take(i as int)[k].0)@ != na by {
                        assert(av.take(i as int)[k] == av[k]);
                        assert(lex_lt(av[k].0@, na));
                        crate::text::lemma_lex_trichotomy(av[k].0@, na);
                    }
                    crate::tree::lemma_lookup_none(av.take(i as int), na);
                    assert forall|k: int| 0 <= k < bv.take(j as int).len() implies (
                    #[trigger] bv.take(j as int)[k].0)@ != na by {
                        assert(bv.take(j as int)[k] == bv[k]);
                        assert(lex_lt(bv[k].0@, na));
                        crate::text::lemma_lex_trichotomy(bv[k].0@, na);
                    }
                    crate::tree::lemma_lookup_none(bv.take(j as int), na);
                    assert(av.take(i + 1) =~= av.take(i as int).push(av[i as int]));
                }
                let name = self.entries[i].0.clone();
                let ghost old_deleted = deleted@;
                deleted.push(name);
                proof {
                    assert(deleted@ == old_deleted.push(name));
                    // order of the grown list, and its bounds against what is
                    // left on both sides
                    assert forall|k1: int, k2: int|
                        0 <= k1 < k2 < deleted@.len() implies lex_lt(
                        (#[trigger] deleted@[k1])@,
                        (#[trigger] deleted@[k2])@,
                    ) by {
                        if k2 == deleted@.len() - 1 {
                            assert(deleted@[k1] == old_deleted[k1]);
                            assert(lex_lt(old_deleted[k1]@, av[i as int].0@));
                        } else {
                            assert(deleted@[k1] == old_deleted[k1]);
                            assert(deleted@[k2] == old_deleted[k2]);
                        }
                    }
                    assert forall|m: int| j <= m < bv.len() implies lex_lt(
                        na,
                        (#[trigger] bv[m]).0@,
                    ) by {
                        assert(lex_lt(na, bv[j as int].0@));
                        if m > j {
                            crate::text::lemma_lex_transitive(na, bv[j as int].0@, bv[m].0@);
                        }
                    }
                    // every lookup on the grown prefix, and the grown deleted
                    // list, stays described
                    assert forall|n: Seq<char>|
                        #![trigger lookup_entries(av.take(i + 1), n)]
                        lookup_entries(av.take(i + 1), n) == (match lookup_entries(
                        av.take(i as int),
                        n,
                    ) {
                        Some(e) => Some(e),
                        None => if na == n {
                            Some(av[i as int].1)
                        } else {
                            None
                        },
                    }) by {
                        lemma_lookup_push(av.take(i as int), av[i as int], n);
                    }
                    assert forall|n: Seq<char>|
                        lookup_entries(av.take(i + 1), n) is Some && lookup_entries(
                        bv.take(j as int),
                        n,
                    ) is None implies names_contain(deleted@, n) by {
                        lemma_names_contain_push(old_deleted, name, n);
                    }
                    assert forall|n: Seq<char>| names_contain(deleted@, n) implies names_contain(
                        old_deleted,
                        n,
                    ) || n == na by {
                        lemma_names_contain_push(old_deleted, name, n);
                    }
                }
                i = i + 1;
            } else if order == 1 {
                let ghost nb = bv[j as int].0@;
                proof {
                    assert forall|k: int| 0 <= k < bv.take(j as int).len() implies (
                    #[trigger] bv.take(j as int)[k].0)@ != nb by {
                        assert(bv.take(j as int)[k] == bv[k]);
                        assert(lex_lt(bv[k].0@, nb));
                        crate::text::lemma_lex_trichotomy(bv[k].0@, nb);
                    }
                    crate::tree::lemma_lookup_none(bv.take(j as int), nb);
                    assert forall|k: int| 0 <= k < av.take(i as int).len() implies (
                    #[trigger] av.take(i as int)[k].0)@ != nb by {
                        assert(av.take(i as int)[k] == av[k]);
                        assert(lex_lt(av[k].0@, nb));
                        crate::text::lemma_lex_trichotomy(av[k].0@, nb);
                    }
                    crate::tree::lemma_lookup_none(av.take(i as int), nb);
                    assert(bv.take(j + 1) =~= bv.take(j as int).push(bv[j as int]));
                }
                let name = other.entries[j].0.clone();
                let copy = other.entries[j].1.duplicate();
                proof {
                    crate::tree::lemma_entry_equiv_symm(bv[j as int].1, copy);
                    lemma_entry_equiv_preserves_wf(bv[j as int].1, copy);
                }
                let ghost old_added = added@;
                added.push((name, copy));
                proof {
                    assert(added@ == old_added.push((name, copy)));
                    lemma_entries_wf_push(old_added, (name, copy));
                    assert forall|k1: int, k2: int|
                        0 <= k1 < k2 < added@.len() implies lex_lt(
                        (#[trigger] added@[k1]).0@,
                        (#[trigger] added@[k2]).0@,
                    ) by {
                        if k2 == added@.len() - 1 {
                            assert(added@[k1] == old_added[k1]);
                            assert(lex_lt(old_added[k1].0@, bv[j as int].0@));
                        } else {
                            assert(added@[k1] == old_added[k1]);
                            assert(added@[k2] == old_added[k2]);
                        }
                    }
                    assert forall|m: int| i <= m < av.len() implies lex_lt(
                        nb,
                        (#[trigger] av[m]).0@,
                    ) by {
                        assert(lex_lt(nb, av[i as int].0@));
                        if m > i {
                            crate::text::lemma_lex_transitive(nb, av[i as int].0@, av[m].0@);
                        }
                    }
                    assert forall|n: Seq<char>|
                        #![trigger lookup_entries(bv.take(j + 1), n)]
                        lookup_entries(bv.take(j + 1), n) == (match lookup_entries(
                        bv.take(j as int),
                        n,
                    ) {
                        Some(e) => Some(e),
                        None => if nb == n {
                            Some(bv[j as int].1)
                        } else {
                            None
                        },
                    }) by {
                        lemma_lookup_push(bv.take(j as int), bv[j as int], n);
                    }
                    assert forall|n: Seq<char>|
                        #![trigger lookup_entries(added@, n)]
                        lookup_entries(added@, n) == (match lookup_entries(old_added, n) {
                        Some(e) => Some(e),
                        None => if nb == n {
                            Some(copy)
                        } else {
                            None
                        },
                    }) by {
                        lemma_lookup_push(old_added, (name, copy), n);
                    }
                }
                j = j + 1;
            } else {
                let ghost na = av[i as int].0@;
                proof {
                    assert(bv[j as int].0@ == na);
                    assert forall|k: int| 0 <= k < av.take(i as int).len() implies (
                    #[trigger] av.take(i as int)[k].0)@ != na by {
                        assert(av.take(i as int)[k] == av[k]);
                        assert(lex_lt(av[k].0@, na));
                        crate::text::lemma_lex_trichotomy(av[k].0@, na);
                    }
                    crate::tree::lemma_lookup_none(av.take(i as int), na);
                    assert forall|k: int| 0 <= k < bv.take(j as int).len() implies (
                    #[trigger] bv.take(j as int)[k].0)@ != na by {
                        assert(bv.take(j as int)[k] == bv[k]);
                        assert(lex_lt(bv[k].0@, na));
                        crate::text::lemma_lex_trichotomy(bv[k].0@, na);
                    }
                    crate::tree::lemma_lookup_none(bv.take(j as int), na);
                    assert(av.take(i + 1) =~= av.take(i as int).push(av[i as int]));
                    assert(bv.take(j + 1) =~= bv.take(j as int).push(bv[j as int]));
                    assert forall|n: Seq<char>|
                        #![trigger lookup_entries(av.take(i + 1), n)]
                        lookup_entries(av.take(i + 1), n) == (match lookup_entries(
                        av.take(i as int),
                        n,
                    ) {
                        Some(e) => Some(e),
                        None => if na == n {
                            Some(av[i as int].1)
                        } else {
                            None
                        },
                    }) by {
                        lemma_lookup_push(av.take(i as int), av[i as int], n);
                    }
                    assert forall|n: Seq<char>|
                        #![trigger lookup_entries(bv.take(j + 1), n)]
                        lookup_entries(bv.take(j + 1), n) == (match lookup_entries(
                        bv.take(j as int),
                        n,
                    ) {
                        Some(e) => Some(e),
                        None => if na == n {
                            Some(bv[j as int].1)
                        } else {
                            None
                        },
                    }) by {
                        lemma_lookup_push(bv.take(j as int), bv[j as int], n);
                    }
                }
                let change = self.entries[i].1.difference(&other.entries[j].1);
                match change {
                    Some(ch) => {
                        let name = self.entries[i].0.clone();
                        let ghost old_modified = modified@;
                        modified.push((name, ch));
                        proof {
                            assert(modified@ == old_modified.push((name, ch)));
                            lemma_changes_wf_push(old_modified, (name, ch));
                            assert forall|k1: int, k2: int|
                                0 <= k1 < k2 < modified@.len() implies lex_lt(
                                (#[trigger] modified@[k1]).0@,
                                (#[trigger] modified@[k2]).0@,
                            ) by {
                                if k2 == modified@.len() - 1 {
                                    assert(modified@[k1] == old_modified[k1]);
                                    assert(lex_lt(old_modified[k1].0@, av[i as int].0@));
                                } else {
                                    assert(modified@[k1] == old_modified[k1]);
                                    assert(modified@[k2] == old_modified[k2]);
                                }
                            }
                            assert forall|n: Seq<char>|
                                #![trigger lookup_changes(modified@, n)]
                                lookup_changes(modified@, n) == (match lookup_changes(
                                old_modified,
                                n,
                            ) {
                                Some(e) => Some(e),
                                None => if na == n {
                                    Some(ch)
                                } else {
                                    None
                                },
                            }) by {
                                lemma_lookup_changes_push(old_modified, (name, ch), n);
                            }
                        }
                    },
                    None => {
                    },
                }
                proof {
                    assert forall|m: int| j + 1 <= m < bv.len() implies lex_lt(
                        na,
                        (#[trigger] bv[m]).0@,
                    ) by {
                        assert(lex_lt(bv[j as int].0@, bv[m].0@));
                    }
                    assert forall|m: int| i + 1 <= m < av.len() implies lex_lt(
                        na,
                        (#[trigger] av[m]).0@,
                    ) by {
                        assert(lex_lt(av[i as int].0@, av[m].0@));
                    }
                }
                i = i + 1;
                j = j + 1;
            }
        }
        proof {
            assert(av.take(i as int) =~= av);
            assert(bv.take(j as int) =~= bv);
            lemma_additions_describe_index(*self, *other, added@);
            lemma_changes_describe_index(*self, *other, modified@);
        }
        SnapShotDifference { deleted, added, modified }
    }
}

} // verus!
