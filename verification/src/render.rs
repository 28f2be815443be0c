//! Flat, path-addressed views of the recursive structures: a difference
//! rendered as a sorted change list, one `"D|A|M <path>"` line per leaf-level
//! change, and the write plan that lays a snapshot tree out into a directory.

use vstd::prelude::*;

use vstd::multiset::Multiset;
use vstd::relations::{sorted_by, total_ordering};
use vstd::seq_lib::lemma_multiset_commutative;
use vstd::seq_lib::lemma_sorted_unique;

use crate::diff::{symbol_of, DifferenceEntry, DifferenceStackType, SnapShotDifference};
use crate::object_id::ObjectID;
use crate::text::{lex_lt, str_compare};
use crate::tree::DirectoryEntry;

verus! {

broadcast use vstd::std_specs::vec::group_vec_axioms, vstd::seq_lib::group_to_multiset_ensures, vstd::multiset::group_multiset_axioms;

/// The path of an entry under a directory prefix: the bare name at the top
/// level, otherwise prefix, separator, name.
pub open spec fn joined(prefix: Seq<char>, name: Seq<char>) -> Seq<char> {
    if prefix.len() == 0 {
        name
    } else {
        prefix + seq!['/'] + name
    }
}

/// The changed paths of an entry added under `path`: a file, or a directory
/// with no entries, is the one added path itself; a directory with entries
/// expands into its members.
pub open spec fn flat_added_entry(path: Seq<char>, e: DirectoryEntry) -> Seq<
    (Seq<char>, DifferenceStackType),
>
    decreases e,
{
    match e {
        DirectoryEntry::File(_) => seq![(path, DifferenceStackType::Added)],
        DirectoryEntry::Directory(t) => if t.entries@.len() == 0 {
            seq![(path, DifferenceStackType::Added)]
        } else {
            flat_added_entries(path, t.entries@)
        },
    }
}

/// The changed paths of a list of entries added under a directory prefix.
pub open spec fn flat_added_entries(
    prefix: Seq<char>,
    es: Seq<(String, DirectoryEntry)>,
) -> Seq<(Seq<char>, DifferenceStackType)>
    decreases es,
{
    if es.len() == 0 {
        Seq::empty()
    } else {
        flat_added_entry(joined(prefix, es[0].0@), es[0].1) + flat_added_entries(
            prefix,
            es.drop_first(),
        )
    }
}

/// The deleted paths of a difference, under a directory prefix.
pub open spec fn flat_deleted(prefix: Seq<char>, ns: Seq<String>) -> Seq<
    (Seq<char>, DifferenceStackType),
> {
    Seq::new(ns.len(), |i: int| (joined(prefix, ns[i]@), DifferenceStackType::Deleted))
}

/// The changed paths of one recorded change at `path`: a file change is the
/// one modified path; a changed directory expands into its nested difference.
pub open spec fn flat_change(path: Seq<char>, ch: DifferenceEntry) -> Seq<
    (Seq<char>, DifferenceStackType),
>
    decreases ch,
{
    match ch {
        DifferenceEntry::File(_) => seq![(path, DifferenceStackType::Modified)],
        DifferenceEntry::Directory(sd) => flat_diff(path, *sd),
    }
}

/// The changed paths of a list of recorded changes under a directory prefix.
pub open spec fn flat_changes(
    prefix: Seq<char>,
    ms: Seq<(String, DifferenceEntry)>,
) -> Seq<(Seq<char>, DifferenceStackType)>
    decreases ms,
{
    if ms.len() == 0 {
        Seq::empty()
    } else {
        flat_change(joined(prefix, ms[0].0@), ms[0].1) + flat_changes(prefix, ms.drop_first())
    }
}

/// Every changed path of a difference under a directory prefix, with its kind
/// of change, in the order of the difference's own lists.
pub open spec fn flat_diff(prefix: Seq<char>, d: SnapShotDifference) -> Seq<
    (Seq<char>, DifferenceStackType),
>
    decreases d,
{
    flat_deleted(prefix, d.deleted@) + flat_added_entries(prefix, d.added@) + flat_changes(
        prefix,
        d.modified@,
    )
}

/// A numeric rank that tells the three kinds of change apart.
pub open spec fn kind_rank(k: DifferenceStackType) -> int {
    match k {
        DifferenceStackType::Deleted => 0,
        DifferenceStackType::Added => 1,
        DifferenceStackType::Modified => 2,
    }
}

/// The order of rendered lines: by path, and between equal paths by kind.
pub open spec fn pair_le(
    x: (Seq<char>, DifferenceStackType),
    y: (Seq<char>, DifferenceStackType),
) -> bool {
    lex_lt(x.0, y.0) || (x.0 == y.0 && kind_rank(x.1) <= kind_rank(y.1))
}

/// The line order as a relation value.
pub open spec fn pair_order() -> spec_fn(
    (Seq<char>, DifferenceStackType),
    (Seq<char>, DifferenceStackType),
) -> bool {
    |x: (Seq<char>, DifferenceStackType), y: (Seq<char>, DifferenceStackType)| pair_le(x, y)
}

/// The line order is a total order.
pub proof fn lemma_pair_order_total()
    ensures
        total_ordering(pair_order()),
{
    let r = pair_order();
    assert forall|x: (Seq<char>, DifferenceStackType)| #[trigger] r(x, x) by {
        crate::text::lemma_lex_trichotomy(x.0, x.0);
    }
    assert forall|x: (Seq<char>, DifferenceStackType), y: (Seq<char>, DifferenceStackType)|
        #[trigger] r(x, y) && #[trigger] r(y, x) implies x == y by {
        crate::text::lemma_lex_trichotomy(x.0, y.0);
        assert(x.0 == y.0);
        assert(kind_rank(x.1) == kind_rank(y.1));
        assert(x.1 == y.1);
        assert(x == (x.0, x.1));
        assert(y == (y.0, y.1));
    }
    assert forall|
        x: (Seq<char>, DifferenceStackType),
        y: (Seq<char>, DifferenceStackType),
        z: (Seq<char>, DifferenceStackType),
    |
        #[trigger] r(x, y) && #[trigger] r(y, z) implies r(x, z) by {
        if lex_lt(x.0, y.0) && lex_lt(y.0, z.0) {
            crate::text::lemma_lex_transitive(x.0, y.0, z.0);
        }
    }
    assert forall|x: (Seq<char>, DifferenceStackType), y: (Seq<char>, DifferenceStackType)| #[trigger]
        r(x, y) || #[trigger] r(y, x) by {
        crate::text::lemma_lex_trichotomy(x.0, y.0);
    }
}

/// The character-level view of a built list of path and kind pairs.
pub open spec fn pairs_view(v: Seq<(String, DifferenceStackType)>) -> Seq<
    (Seq<char>, DifferenceStackType),
> {
    Seq::new(v.len(), |i: int| (v[i].0@, v[i].1))
}

/// The rendered text of a list of changed paths: one line per pair, the
/// letter of the kind, a space, the path, a line break.
pub open spec fn lines_of(ps: Seq<(Seq<char>, DifferenceStackType)>) -> Seq<char>
    decreases ps.len(),
{
    if ps.len() == 0 {
        Seq::empty()
    } else {
        seq![symbol_of(ps[0].1), ' '] + ps[0].0 + seq!['\n'] + lines_of(ps.drop_first())
    }
}

/// Rendering one more pair appends one more line.
pub proof fn lemma_lines_of_push(ps: Seq<(Seq<char>, DifferenceStackType)>, x: (Seq<char>, DifferenceStackType))
    ensures
        lines_of(ps.push(x)) =~= lines_of(ps) + seq![symbol_of(x.1), ' '] + x.0 + seq!['\n'],
    decreases ps.len(),
{
    if ps.len() == 0 {
        assert(ps.push(x)[0] == x);
        assert(ps.push(x).drop_first() =~= Seq::<(Seq<char>, DifferenceStackType)>::empty());
        assert(lines_of(ps.push(x)) == seq![symbol_of(x.1), ' '] + x.0 + seq!['\n'] + lines_of(
            Seq::<(Seq<char>, DifferenceStackType)>::empty(),
        ));
        assert(lines_of(Seq::<(Seq<char>, DifferenceStackType)>::empty()) == Seq::<char>::empty());
    } else {
        lemma_lines_of_push(ps.drop_first(), x);
        assert(ps.push(x).drop_first() =~= ps.drop_first().push(x));
        assert(ps.push(x)[0] == ps[0]);
        assert(lines_of(ps.push(x)) == seq![symbol_of(ps[0].1), ' '] + ps[0].0 + seq!['\n']
            + lines_of(ps.drop_first().push(x)));
        assert(lines_of(ps) == seq![symbol_of(ps[0].1), ' '] + ps[0].0 + seq!['\n'] + lines_of(
            ps.drop_first(),
        ));
    }
}

/// Flattening one more added entry appends its changed paths.
pub proof fn lemma_flat_added_entries_push(
    prefix: Seq<char>,
    es: Seq<(String, DirectoryEntry)>,
    x: (String, DirectoryEntry),
)
    ensures
        flat_added_entries(prefix, es.push(x)) =~= flat_added_entries(prefix, es)
            + flat_added_entry(joined(prefix, x.0@), x.1),
    decreases es.len(),
{
    if es.len() == 0 {
        assert(es.push(x)[0] == x);
        assert(es.push(x).drop_first() =~= Seq::<(String, DirectoryEntry)>::empty());
        assert(flat_added_entries(prefix, es.push(x).drop_first()) =~= Seq::<
            (Seq<char>, DifferenceStackType),
        >::empty());
    } else {
        lemma_flat_added_entries_push(prefix, es.drop_first(), x);
        assert(es.push(x).drop_first() =~= es.drop_first().push(x));
        assert(es.push(x)[0] == es[0]);
    }
}

/// Flattening one more recorded change appends its changed paths.
pub proof fn lemma_flat_changes_push(
    prefix: Seq<char>,
    ms: Seq<(String, DifferenceEntry)>,
    x: (String, DifferenceEntry),
)
    ensures
        flat_changes(prefix, ms.push(x)) =~= flat_changes(prefix, ms) + flat_change(
            joined(prefix, x.0@),
            x.1,
        ),
    decreases ms.len(),
{
    if ms.len() == 0 {
        assert(ms.push(x)[0] == x);
        assert(ms.push(x).drop_first() =~= Seq::<(String, DifferenceEntry)>::empty());
        assert(flat_changes(prefix, ms.push(x).drop_first()) =~= Seq::<
            (Seq<char>, DifferenceStackType),
        >::empty());
    } else {
        lemma_flat_changes_push(prefix, ms.drop_first(), x);
        assert(ms.push(x).drop_first() =~= ms.drop_first().push(x));
        assert(ms.push(x)[0] == ms[0]);
    }
}

/// Inserting one element anywhere adds exactly it to the multiset.
pub proof fn lemma_insert_to_multiset(
    s: Seq<(Seq<char>, DifferenceStackType)>,
    k: int,
    x: (Seq<char>, DifferenceStackType),
)
    requires
        0 <= k <= s.len(),
    ensures
        s.insert(k, x).to_multiset() =~= s.to_multiset().insert(x),
{
    broadcast use vstd::seq_lib::group_to_multiset_ensures;
    broadcast use vstd::multiset::group_multiset_axioms;

    assert(s.insert(k, x) =~= s.take(k) + (seq![x] + s.skip(k)));
    assert(s =~= s.take(k) + s.skip(k));
    lemma_multiset_commutative(s.take(k), seq![x] + s.skip(k));
    lemma_multiset_commutative(seq![x], s.skip(k));
    lemma_multiset_commutative(s.take(k), s.skip(k));
    assert(seq![x] =~= Seq::<(Seq<char>, DifferenceStackType)>::empty().push(x));
    assert(seq![x].to_multiset() =~= Multiset::<
        (Seq<char>, DifferenceStackType),
    >::empty().insert(x));
}

/// The single-character prefix of a line of one kind: the letter and a space.
fn symbol_prefix(k: &DifferenceStackType) -> (r: &'static str)
    ensures
        r@ =~= seq![symbol_of(*k), ' '],
{
    proof {
        reveal_strlit("D ");
        reveal_strlit("A ");
        reveal_strlit("M ");
    }
    match k {
        DifferenceStackType::Deleted => "D ",
        DifferenceStackType::Added => "A ",
        DifferenceStackType::Modified => "M ",
    }
}

/// Joins a directory prefix and an entry name into one path.
fn join_path(prefix: &str, name: &str) -> (r: String)
    ensures
        r@ =~= joined(prefix@, name@),
{
    if prefix.unicode_len() == 0 {
        name.to_owned()
    } else {
        proof {
            reveal_strlit("/");
        }
        let mut s = prefix.to_owned();
        s.append("/");
        s.append(name);
        s
    }
}

/// One step of writing a snapshot tree out into a directory.
#[derive(Debug)]
pub enum MaterializeStep {
    /// Create the directory at this path.
    MakeDirectory,
    /// Write the blob with this identifier to the file at this path.
    WriteFile(ObjectID),
}

/// The steps that lay a tree out under a directory prefix: each subdirectory
/// is created, then filled; each file is written from its stored blob.
pub open spec fn materialize_steps(prefix: Seq<char>, es: Seq<(String, DirectoryEntry)>) -> Seq<
    (Seq<char>, Option<Seq<u8>>),
>
    decreases es,
{
    if es.len() == 0 {
        Seq::empty()
    } else {
        materialize_step(joined(prefix, es[0].0@), es[0].1) + materialize_steps(
            prefix,
            es.drop_first(),
        )
    }
}

/// The steps for one entry: a file is one write of its content identifier's
/// digest; a directory is created and then filled.
pub open spec fn materialize_step(path: Seq<char>, e: DirectoryEntry) -> Seq<
    (Seq<char>, Option<Seq<u8>>),
>
    decreases e,
{
    match e {
        DirectoryEntry::File(id) => seq![(path, Some(id@))],
        DirectoryEntry::Directory(t) => seq![(path, Option::<Seq<u8>>::None)]
            + materialize_steps(path, t.entries@),
    }
}

/// The view of a built step list.
pub open spec fn steps_view(v: Seq<(String, MaterializeStep)>) -> Seq<(Seq<char>, Option<Seq<u8>>)> {
    Seq::new(
        v.len(),
        |i: int|
            (
                v[i].0@,
                match v[i].1 {
                    MaterializeStep::MakeDirectory => None,
                    MaterializeStep::WriteFile(id) => Some(id@),
                },
            ),
    )
}

/// Materializing one more entry appends its steps.
pub proof fn lemma_materialize_steps_push(
    prefix: Seq<char>,
    es: Seq<(String, DirectoryEntry)>,
    x: (String, DirectoryEntry),
)
    ensures
        materialize_steps(prefix, es.push(x)) =~= materialize_steps(prefix, es)
            + materialize_step(joined(prefix, x.0@), x.1),
    decreases es.len(),
{
    if es.len() == 0 {
        assert(es.push(x)[0] == x);
        assert(es.push(x).drop_first() =~= Seq::<(String, DirectoryEntry)>::empty());
        assert(materialize_steps(prefix, es.push(x).drop_first()) =~= Seq::<
            (Seq<char>, Option<Seq<u8>>),
        >::empty());
    } else {
        lemma_materialize_steps_push(prefix, es.drop_first(), x);
        assert(es.push(x).drop_first() =~= es.drop_first().push(x));
        assert(es.push(x)[0] == es[0]);
    }
}

/// Collects the steps that lay one entry out at `path` into `out`.
#[verifier::loop_isolation(false)]
fn materialize_entry_into(
    path: String,
    e: &DirectoryEntry,
    out: &mut Vec<(String, MaterializeStep)>,
)
    ensures
        steps_view(final(out)@) =~= steps_view(old(out)@) + materialize_step(path@, *e),
    decreases *e,
{
    let ghost base = out@;
    match e {
        DirectoryEntry::File(id) => {
            out.push((path, MaterializeStep::WriteFile(id.duplicate())));
            proof {
                assert(steps_view(out@) =~= steps_view(base) + materialize_step(
                    out@.last().0@,
                    *e,
                ));
            }
        },
        DirectoryEntry::Directory(t) => {
            let dir_path = path.clone();
            out.push((dir_path, MaterializeStep::MakeDirectory));
            let ghost with_dir = out@;
            proof {
                assert(steps_view(with_dir) =~= steps_view(base).push(
                    (path@, Option::<Seq<u8>>::None),
                ));
                assert(t.spec_entries().take(0) =~= Seq::<(String, DirectoryEntry)>::empty());
                assert(materialize_steps(path@, t.spec_entries().take(0)) =~= Seq::<
                    (Seq<char>, Option<Seq<u8>>),
                >::empty());
            }
            let mut i: usize = 0;
            while i < t.entry_count()
                invariant
                    i <= t.spec_entries().len(),
                    steps_view(out@) =~= steps_view(with_dir) + materialize_steps(
                        path@,
                        t.spec_entries().take(i as int),
                    ),
                decreases t.spec_entries().len() - i,
            {
                let entry_ref = t.entry_at(i);
                let child = join_path(path.as_str(), entry_ref.0.as_str());
                proof {
                    assert(*e == DirectoryEntry::Directory(*t));
                    assert(decreases_to!(*e => *t));
                    assert(decreases_to!(*t => t.entries));
                    assert(decreases_to!(t.entries => t.entries@));
                    assert(decreases_to!(t.entries@ => t.entries@[i as int]));
                    assert(decreases_to!(t.entries@[i as int] => t.entries@[i as int].1));
                }
                materialize_entry_into(child, &entry_ref.1, out);
                proof {
                    lemma_materialize_steps_push(
                        path@,
                        t.spec_entries().take(i as int),
                        t.spec_entries()[i as int],
                    );
                    assert(t.spec_entries().take(i + 1) =~= t.spec_entries().take(i as int).push(
                        t.spec_entries()[i as int],
                    ));
                    assert(steps_view(out@) =~= steps_view(with_dir) + materialize_steps(
                        path@,
                        t.spec_entries().take(i + 1),
                    ));
                }
                i = i + 1;
            }
            proof {
                assert(t.spec_entries().take(t.spec_entries().len() as int) =~= t.spec_entries());
                assert(steps_view(out@) =~= steps_view(base) + materialize_step(path@, *e));
            }
        },
    }
}

/// The steps that write a whole tree out into an existing target directory:
/// one write per file leaf, one directory creation per subdirectory, parents
/// before their contents. Whoever owns the filesystem performs the steps.
pub fn materialize_plan(tree: &crate::tree::SnapShotTree) -> (r: Vec<(String, MaterializeStep)>)
    ensures
        steps_view(r@) =~= materialize_steps(Seq::<char>::empty(), tree.spec_entries()),
{
    let mut out: Vec<(String, MaterializeStep)> = Vec::new();
    proof {
        reveal_strlit("");
        assert(steps_view(out@) =~= Seq::<(Seq<char>, Option<Seq<u8>>)>::empty());
        assert(tree.spec_entries().take(0) =~= Seq::<(String, DirectoryEntry)>::empty());
        assert(materialize_steps(Seq::<char>::empty(), tree.spec_entries().take(0)) =~= Seq::<
            (Seq<char>, Option<Seq<u8>>),
        >::empty());
    }
    let mut i: usize = 0;
    while i < tree.entry_count()
        invariant
            i <= tree.spec_entries().len(),
            steps_view(out@) =~= materialize_steps(
                Seq::<char>::empty(),
                tree.spec_entries().take(i as int),
            ),
        decreases tree.spec_entries().len() - i,
    {
        let entry_ref = tree.entry_at(i);
        let path = entry_ref.0.clone();
        proof {
            reveal_strlit("");
            assert(("")@ =~= Seq::<char>::empty());
            assert(joined(Seq::<char>::empty(), path@) == path@);
        }
        materialize_entry_into(path, &entry_ref.1, &mut out);
        proof {
            lemma_materialize_steps_push(
                Seq::<char>::empty(),
                tree.spec_entries().take(i as int),
                tree.spec_entries()[i as int],
            );
            assert(tree.spec_entries().take(i + 1) =~= tree.spec_entries().take(i as int).push(
                tree.spec_entries()[i as int],
            ));
        }
        i = i + 1;
    }
    proof {
        assert(tree.spec_entries().take(tree.spec_entries().len() as int)
            =~= tree.spec_entries());
    }
    out
}

/// Appending a pair to a built list appends its view.
pub proof fn lemma_pairs_view_push(v: Seq<(String, DifferenceStackType)>, p: (String, DifferenceStackType))
    ensures
        pairs_view(v.push(p)) =~= pairs_view(v).push((p.0@, p.1)),
{
}

/// Collects the changed paths of one added entry into `out`.
#[verifier::loop_isolation(false)]
fn flat_added_entry_into(
    path: String,
    e: &DirectoryEntry,
    out: &mut Vec<(String, DifferenceStackType)>,
)
    ensures
        pairs_view(final(out)@) =~= pairs_view(old(out)@) + flat_added_entry(path@, *e),
    decreases *e,
{
    let ghost base = out@;
    match e {
        DirectoryEntry::File(_) => {
            proof {
                lemma_pairs_view_push(base, (path, DifferenceStackType::Added));
            }
            out.push((path, DifferenceStackType::Added));
        },
        DirectoryEntry::Directory(t) => {
            if t.entry_count() == 0 {
                proof {
                    lemma_pairs_view_push(base, (path, DifferenceStackType::Added));
                }
                out.push((path, DifferenceStackType::Added));
            } else {
                let mut i: usize = 0;
                proof {
                    assert(t.spec_entries().take(0) =~= Seq::<(String, DirectoryEntry)>::empty());
                    assert(flat_added_entries(path@, t.spec_entries().take(0)) =~= Seq::<
                        (Seq<char>, DifferenceStackType),
                    >::empty());
                }
                while i < t.entry_count()
                    invariant
                        i <= t.spec_entries().len(),
                        t.spec_entries().len() > 0,
                        pairs_view(out@) =~= pairs_view(base) + flat_added_entries(
                            path@,
                            t.spec_entries().take(i as int),
                        ),
                    decreases t.spec_entries().len() - i,
                {
                    let entry_ref = t.entry_at(i);
                    let child = join_path(path.as_str(), entry_ref.0.as_str());
                    let ghost before = out@;
                    proof {
                        assert(*e == DirectoryEntry::Directory(*t));
                        assert(decreases_to!(*e => *t));
                        assert(decreases_to!(*t => t.entries));
                        assert(decreases_to!(t.entries => t.entries@));
                        assert(decreases_to!(t.entries@ => t.entries@[i as int]));
                        assert(decreases_to!(t.entries@[i as int] => t.entries@[i as int].1));
                    }
                    flat_added_entry_into(child, &entry_ref.1, out);
                    proof {
                        lemma_flat_added_entries_push(
                            path@,
                            t.spec_entries().take(i as int),
                            t.spec_entries()[i as int],
                        );
                        assert(t.spec_entries().take(i + 1) =~= t.spec_entries().take(
                            i as int,
                        ).push(t.spec_entries()[i as int]));
                        assert(pairs_view(out@) =~= pairs_view(base) + flat_added_entries(
                            path@,
                            t.spec_entries().take(i + 1),
                        ));
                    }
                    i = i + 1;
                }
                proof {
                    assert(t.spec_entries().take(t.spec_entries().len() as int)
                        =~= t.spec_entries());
                }
            }
        },
    }
}

/// Collects every changed path of a difference under a directory prefix into
/// `out`.
fn flat_diff_into(
    prefix: &str,
    d: &SnapShotDifference,
    out: &mut Vec<(String, DifferenceStackType)>,
)
    ensures
        pairs_view(final(out)@) =~= pairs_view(old(out)@) + flat_diff(prefix@, *d),
    decreases *d,
{
    let ghost base = out@;
    let mut i: usize = 0;
    while i < d.deleted.len()
        invariant
            i <= d.deleted@.len(),
            pairs_view(out@) =~= pairs_view(base) + flat_deleted(
                prefix@,
                d.deleted@.take(i as int),
            ),
        decreases d.deleted@.len() - i,
    {
        let path = join_path(prefix, d.deleted[i].as_str());
        let ghost before = out@;
        proof {
            lemma_pairs_view_push(before, (path, DifferenceStackType::Deleted));
        }
        out.push((path, DifferenceStackType::Deleted));
        proof {
            assert(pairs_view(out@) =~= pairs_view(base) + flat_deleted(
                prefix@,
                d.deleted@.take(i + 1),
            ));
        }
        i = i + 1;
    }
    proof {
        assert(d.deleted@.take(d.deleted@.len() as int) =~= d.deleted@);
    }
    let ghost with_deleted = pairs_view(base) + flat_deleted(prefix@, d.deleted@);
    let mut i: usize = 0;
    proof {
        assert(d.added@.take(0) =~= Seq::<(String, DirectoryEntry)>::empty());
        assert(flat_added_entries(prefix@, d.added@.take(0)) =~= Seq::<
            (Seq<char>, DifferenceStackType),
        >::empty());
    }
    while i < d.added.len()
        invariant
            i <= d.added@.len(),
            pairs_view(out@) =~= with_deleted + flat_added_entries(
                prefix@,
                d.added@.take(i as int),
            ),
        decreases d.added@.len() - i,
    {
        let path = join_path(prefix, d.added[i].0.as_str());
        flat_added_entry_into(path, &d.added[i].1, out);
        proof {
            lemma_flat_added_entries_push(prefix@, d.added@.take(i as int), d.added@[i as int]);
            assert(d.added@.take(i + 1) =~= d.added@.take(i as int).push(d.added@[i as int]));
            assert(pairs_view(out@) =~= with_deleted + flat_added_entries(
                prefix@,
                d.added@.take(i + 1),
            ));
        }
        i = i + 1;
    }
    proof {
        assert(d.added@.take(d.added@.len() as int) =~= d.added@);
    }
    let ghost with_added = with_deleted + flat_added_entries(prefix@, d.added@);
    let mut i: usize = 0;
    proof {
        assert(d.modified@.take(0) =~= Seq::<(String, DifferenceEntry)>::empty());
        assert(flat_changes(prefix@, d.modified@.take(0)) =~= Seq::<
            (Seq<char>, DifferenceStackType),
        >::empty());
    }
    while i < d.modified.len()
        invariant
            i <= d.modified@.len(),
            pairs_view(out@) =~= with_added + flat_changes(prefix@, d.modified@.take(i as int)),
        decreases d.modified@.len() - i,
    {
        let path = join_path(prefix, d.modified[i].0.as_str());
        match &d.modified[i].1 {
            DifferenceEntry::File(_) => {
                let ghost before = out@;
                proof {
                    lemma_pairs_view_push(before, (path, DifferenceStackType::Modified));
                }
                out.push((path, DifferenceStackType::Modified));
            },
            DifferenceEntry::Directory(sd) => {
                flat_diff_into(path.as_str(), sd, out);
            },
        }
        proof {
            lemma_flat_changes_push(prefix@, d.modified@.take(i as int), d.modified@[i as int]);
            assert(d.modified@.take(i + 1) =~= d.modified@.take(i as int).push(
                d.modified@[i as int],
            ));
            assert(pairs_view(out@) =~= with_added + flat_changes(
                prefix@,
                d.modified@.take(i + 1),
            ));
        }
        i = i + 1;
    }
    proof {
        assert(d.modified@.take(d.modified@.len() as int) =~= d.modified@);
    }
}

/// Whether `a` comes no later than `b` in the line order.
fn pair_le_exec(a: &(String, DifferenceStackType), b: &(String, DifferenceStackType)) -> (r: bool)
    ensures
        r == pair_le((a.0@, a.1), (b.0@, b.1)),
{
    let order = str_compare(a.0.as_str(), b.0.as_str());
    proof {
        crate::text::lemma_lex_trichotomy(a.0@, b.0@);
    }
    if order == -1 {
        true
    } else if order == 1 {
        false
    } else {
        let ra: u8 = match a.1 {
            DifferenceStackType::Deleted => 0,
            DifferenceStackType::Added => 1,
            DifferenceStackType::Modified => 2,
        };
        let rb: u8 = match b.1 {
            DifferenceStackType::Deleted => 0,
            DifferenceStackType::Added => 1,
            DifferenceStackType::Modified => 2,
        };
        ra <= rb
    }
}

/// Sorts a list of path and kind pairs into the line order.
fn sort_pairs(v: &mut Vec<(String, DifferenceStackType)>)
    ensures
        pairs_view(final(v)@) =~= pairs_view(old(v)@).sort_by(pair_order()),
{
    let ghost target = pairs_view(v@);
    let mut out: Vec<(String, DifferenceStackType)> = Vec::new();
    while v.len() > 0
        invariant
            sorted_by(pairs_view(out@), pair_order()),
            pairs_view(out@).to_multiset().add(pairs_view(v@).to_multiset())
                =~= target.to_multiset(),
        decreases v@.len(),
    {
        let ghost v_before = v@;
        let x = match v.pop() {
            Some(x) => x,
            None => {
                return ;
            },
        };
        proof {
            assert(v_before =~= v@.push(x));
            assert(pairs_view(v_before) =~= pairs_view(v@).push((x.0@, x.1)));
            assert(pairs_view(v@).push((x.0@, x.1)).to_multiset() =~= pairs_view(
                v@,
            ).to_multiset().insert((x.0@, x.1)));
            assert(pairs_view(v_before).to_multiset() =~= pairs_view(v@).to_multiset().insert(
                (x.0@, x.1),
            ));
        }
        let mut k: usize = 0;
        while k < out.len() && !pair_le_exec(&x, &out[k])
            invariant
                k <= out@.len(),
                forall|m: int|
                    0 <= m < k ==> !pair_le(
                        (x.0@, x.1),
                        ((#[trigger] out@[m]).0@, out@[m].1),
                    ),
            decreases out@.len() - k,
        {
            k = k + 1;
        }
        let ghost out_before = out@;
        out.insert(k, x);
        proof {
            lemma_pair_order_total();
            assert(out@ == out_before.insert(k as int, x));
            assert(pairs_view(out@) =~= pairs_view(out_before).insert(k as int, (x.0@, x.1)));
            lemma_insert_to_multiset(pairs_view(out_before), k as int, (x.0@, x.1));
            let pv = pairs_view(out@);
            let old_pv = pairs_view(out_before);
            let ghost xv = (x.0@, x.1);
            assert(pv[k as int] == xv);
            assert forall|m1: int, m2: int| 0 <= m1 < m2 < pv.len() implies #[trigger] pair_order()(
                pv[m1],
                pv[m2],
            ) by {
                if m2 < k {
                    assert(pv[m1] == old_pv[m1] && pv[m2] == old_pv[m2]);
                    assert(pair_order()(old_pv[m1], old_pv[m2]));
                } else if m1 > k {
                    assert(pv[m1] == old_pv[m1 - 1] && pv[m2] == old_pv[m2 - 1]);
                    assert(pair_order()(old_pv[m1 - 1], old_pv[m2 - 1]));
                } else if m1 < k && m2 == k {
                    assert(pv[m1] == old_pv[m1]);
                    assert(!pair_le(xv, old_pv[m1]));
                    assert(pair_order()(old_pv[m1], xv) || pair_order()(xv, old_pv[m1]));
                } else if m1 < k && m2 > k {
                    assert(pv[m1] == old_pv[m1] && pv[m2] == old_pv[m2 - 1]);
                    assert(pair_order()(old_pv[m1], old_pv[m2 - 1]));
                } else if m1 == k && m2 > k {
                    assert(pv[m2] == old_pv[m2 - 1]);
                    assert(k < old_pv.len());
                    assert(pair_le(xv, old_pv[k as int]));
                    assert(pair_order()(xv, old_pv[k as int]));
                    if m2 - 1 > k {
                        assert(pair_order()(old_pv[k as int], old_pv[m2 - 1]));
                    }
                }
            }
        }
    }
    proof {
        assert(pairs_view(v@) =~= Seq::<(Seq<char>, DifferenceStackType)>::empty());
        assert(pairs_view(v@).to_multiset() =~= Multiset::<
            (Seq<char>, DifferenceStackType),
        >::empty());
        assert(pairs_view(out@).to_multiset() =~= target.to_multiset());
        lemma_pair_order_total();
        target.lemma_sort_by_ensures(pair_order());
        lemma_sorted_unique(pairs_view(out@), target.sort_by(pair_order()), pair_order());
    }
    *v = out;
}

impl SnapShotDifference {
    /// The rendered change list: every leaf-level change as one line
    /// `"<letter> <path>"` with a final line break, the lines sorted by the
    /// full path's lexicographic order.
    pub fn render(&self) -> (s: String)
        ensures
            s@ == lines_of(flat_diff(Seq::<char>::empty(), *self).sort_by(pair_order())),
    {
        let mut pairs: Vec<(String, DifferenceStackType)> = Vec::new();
        proof {
            reveal_strlit("");
            assert(pairs_view(pairs@) =~= Seq::<(Seq<char>, DifferenceStackType)>::empty());
        }
        flat_diff_into("", self, &mut pairs);
        proof {
            assert(("")@ =~= Seq::<char>::empty());
            assert(pairs_view(pairs@) =~= flat_diff(Seq::<char>::empty(), *self));
        }
        sort_pairs(&mut pairs);
        let ghost sorted = flat_diff(Seq::<char>::empty(), *self).sort_by(pair_order());
        let mut s = String::new();
        let mut i: usize = 0;
        proof {
            assert(sorted.take(0) =~= Seq::<(Seq<char>, DifferenceStackType)>::empty());
            assert(s@ =~= lines_of(sorted.take(0)));
        }
        while i < pairs.len()
            invariant
                i <= pairs@.len(),
                pairs_view(pairs@) =~= sorted,
                s@ =~= lines_of(sorted.take(i as int)),
            decreases pairs@.len() - i,
        {
            s.append(symbol_prefix(&pairs[i].1));
            s.append(pairs[i].0.as_str());
            proof {
                reveal_strlit("\n");
            }
            s.append("\n");
            proof {
                lemma_lines_of_push(sorted.take(i as int), sorted[i as int]);
                assert(sorted.take(i + 1) =~= sorted.take(i as int).push(sorted[i as int]));
                assert(sorted[i as int] == (pairs@[i as int].0@, pairs@[i as int].1));
                assert(s@ =~= lines_of(sorted.take(i + 1)));
            }
            i = i + 1;
        }
        proof {
            assert(sorted.take(sorted.len() as int) =~= sorted);
        }
        s
    }
}

} // verus!
