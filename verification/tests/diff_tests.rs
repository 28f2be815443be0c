use ys_core::diff::{DifferenceEntry, DifferenceStackType, SnapShotDifference};
use ys_core::object_id::ObjectID;
use ys_core::tree::{DirectoryEntry, SnapShotTree};

fn file(content: &[u8]) -> DirectoryEntry {
    DirectoryEntry::File(ObjectID::of(content))
}

fn tree_of(entries: Vec<(&str, DirectoryEntry)>) -> SnapShotTree {
    let mut t = SnapShotTree::new();
    for (name, entry) in entries {
        t.insert(String::from(name), entry);
    }
    t
}

#[test]
fn test_diff_display() {
    let diff_empty = SnapShotDifference { deleted: Vec::new(), added: Vec::new(), modified: Vec::new() };
    assert_eq!(diff_empty.render(), "");

    let deleted_foo = vec![String::from("foo")];
    let added_bar = vec![(String::from("bar"), file(b""))];

    let diff_1 = SnapShotDifference {
        deleted: Vec::new(),
        added: vec![(String::from("bar"), file(b""))],
        modified: Vec::new(),
    };
    assert_eq!(diff_1.render(), "A bar\n");

    let diff_2 = SnapShotDifference {
        deleted: deleted_foo.clone(),
        added: Vec::new(),
        modified: Vec::new(),
    };
    assert_eq!(diff_2.render(), "D foo\n");

    let diff_3 = SnapShotDifference {
        deleted: deleted_foo.clone(),
        added: vec![(String::from("bar"), file(b""))],
        modified: Vec::new(),
    };
    assert_eq!(diff_3.render(), ["A bar", "D foo", ""].join("\n"));

    let diff_4 = SnapShotDifference {
        deleted: deleted_foo.clone(),
        added: vec![(String::from("bar"), file(b""))],
        modified: vec![(String::from("baz"), DifferenceEntry::File(ObjectID::of(b"")))],
    };
    assert_eq!(diff_4.render(), ["A bar", "M baz", "D foo", ""].join("\n"));

    let diff_2_again = SnapShotDifference {
        deleted: deleted_foo.clone(),
        added: Vec::new(),
        modified: Vec::new(),
    };
    let diff_4_again = SnapShotDifference {
        deleted: deleted_foo.clone(),
        added: vec![(String::from("bar"), file(b""))],
        modified: vec![(String::from("baz"), DifferenceEntry::File(ObjectID::of(b"")))],
    };
    let diff_5 = SnapShotDifference {
        deleted: deleted_foo,
        added: added_bar,
        modified: vec![
            (String::from("a"), DifferenceEntry::Directory(Box::new(diff_2_again))),
            (String::from("baz"), DifferenceEntry::Directory(Box::new(diff_4_again))),
        ],
    };
    assert_eq!(
        diff_5.render(),
        ["D a/foo", "A bar", "A baz/bar", "M baz/baz", "D baz/foo", "D foo", ""].join("\n")
    );
}

#[test]
fn diff_of_a_tree_with_itself_is_empty() {
    let t = tree_of(vec![
        ("a", file(b"one")),
        ("b", DirectoryEntry::Directory(tree_of(vec![("c", file(b"two"))]))),
    ]);
    let d = t.difference(&t.duplicate());
    assert!(d.deleted.is_empty());
    assert!(d.added.is_empty());
    assert!(d.modified.is_empty());
    assert_eq!(d.render(), "");
}

#[test]
fn diff_is_antisymmetric_in_content_direction() {
    let a = tree_of(vec![("foo", file(b"x"))]);
    let b = tree_of(vec![("foo", file(b"x")), ("bar", file(b"y"))]);
    let d_ab = a.difference(&b);
    let d_ba = b.difference(&a);
    let added: Vec<&String> = d_ab.added.iter().map(|p| &p.0).collect();
    assert_eq!(added, vec!["bar"]);
    assert_eq!(d_ba.deleted, vec![String::from("bar")]);
}

#[test]
fn kind_change_is_a_modification() {
    let a = tree_of(vec![("f", file(b"old"))]);
    let b = tree_of(vec![(
        "f",
        DirectoryEntry::Directory(tree_of(vec![("g", file(b"inner"))])),
    )]);
    let d = a.difference(&b);
    assert!(d.deleted.is_empty());
    assert!(d.added.is_empty());
    assert_eq!(d.modified.len(), 1);
    assert_eq!(d.modified[0].0, "f");
    match &d.modified[0].1 {
        DifferenceEntry::Directory(inner) => {
            assert!(inner.deleted.is_empty());
            assert!(inner.modified.is_empty());
            assert_eq!(inner.added.len(), 1);
            assert_eq!(inner.added[0].0, "g");
        }
        DifferenceEntry::File(_) => panic!("a kind change must be a directory modification"),
    }
    assert_eq!(d.render(), "A f/g\n");
}

#[test]
fn added_entry_into_empty_tree() {
    let a = SnapShotTree::new();
    let b = tree_of(vec![("bar", file(b""))]);
    let d = a.difference(&b);
    let added: Vec<&String> = d.added.iter().map(|p| &p.0).collect();
    assert_eq!(added, vec!["bar"]);
    assert!(d.deleted.is_empty());
    assert!(d.modified.is_empty());
    assert_eq!(d.render(), "A bar\n");
}

#[test]
fn deleted_entry_renders_one_line() {
    let a = tree_of(vec![("foo", file(b"x"))]);
    let b = SnapShotTree::new();
    assert_eq!(a.difference(&b).render(), "D foo\n");
}

#[test]
fn mixed_change_renders_in_path_order() {
    let a = tree_of(vec![("foo", file(b"x")), ("bar", file(b"y"))]);
    let b = tree_of(vec![("bar", file(b"y")), ("baz", file(b"z"))]);
    assert_eq!(a.difference(&b).render(), "A baz\nD foo\n");
}

#[test]
fn modified_file_renders_one_line() {
    let a = tree_of(vec![("foo", file(b"old"))]);
    let b = tree_of(vec![("foo", file(b"new"))]);
    let d = a.difference(&b);
    assert_eq!(d.modified.len(), 1);
    assert_eq!(d.render(), "M foo\n");
}

#[test]
fn character_symbols() {
    assert_eq!(DifferenceStackType::Deleted.character_symbol(), 'D');
    assert_eq!(DifferenceStackType::Added.character_symbol(), 'A');
    assert_eq!(DifferenceStackType::Modified.character_symbol(), 'M');
}

#[test]
fn insertion_order_does_not_change_the_tree() {
    let forward = tree_of(vec![("a", file(b"1")), ("b", file(b"2")), ("c", file(b"3"))]);
    let backward = tree_of(vec![("c", file(b"3")), ("a", file(b"1")), ("b", file(b"2"))]);
    assert!(forward.equal_value(&backward));
    assert_eq!(forward.encode(), backward.encode());
    assert_eq!(forward.object_id().to_text(), backward.object_id().to_text());
}

#[test]
fn tree_lookup_finds_what_was_inserted() {
    let t = tree_of(vec![("a", file(b"1")), ("b", file(b"2"))]);
    assert!(t.get("a").is_some());
    assert!(t.get("b").is_some());
    assert!(t.get("c").is_none());
    assert_eq!(t.entry_count(), 2);
}
