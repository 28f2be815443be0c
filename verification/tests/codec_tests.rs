use ys_core::commit::Commit;
use ys_core::object_id::{AuthorID, ObjectID};
use ys_core::tree::{DirectoryEntry, SnapShotTree};

fn sample_tree() -> SnapShotTree {
    let mut inner = SnapShotTree::new();
    inner.insert(String::from("nested"), DirectoryEntry::File(ObjectID::of(b"deep")));
    let mut t = SnapShotTree::new();
    t.insert(String::from("file"), DirectoryEntry::File(ObjectID::of(b"content")));
    t.insert(String::from("dir"), DirectoryEntry::Directory(inner));
    t.insert(String::from("empty"), DirectoryEntry::Directory(SnapShotTree::new()));
    t
}

#[test]
fn tree_codec_round_trip() {
    let t = sample_tree();
    let text = t.encode();
    let back = SnapShotTree::decode(text.as_str()).unwrap();
    assert!(back.equal_value(&t));
    assert_eq!(back.encode(), text);
}

#[test]
fn tree_decode_rejects_garbage() {
    assert!(SnapShotTree::decode("").is_none());
    assert!(SnapShotTree::decode("not a tree").is_none());
    assert!(SnapShotTree::decode("(").is_none());
    let t = sample_tree();
    let mut text = t.encode();
    text.push('x');
    assert!(SnapShotTree::decode(text.as_str()).is_none());
}

#[test]
fn tree_decode_rejects_unsorted_entries() {
    // two single-entry trees spliced together out of order
    let mut t1 = SnapShotTree::new();
    t1.insert(String::from("b"), DirectoryEntry::File(ObjectID::of(b"1")));
    let mut t2 = SnapShotTree::new();
    t2.insert(String::from("a"), DirectoryEntry::File(ObjectID::of(b"2")));
    let e1 = t1.encode();
    let e2 = t2.encode();
    let inner1 = &e1[1..e1.len() - 1];
    let inner2 = &e2[1..e2.len() - 1];
    let spliced = format!("({}{})", inner1, inner2);
    assert!(SnapShotTree::decode(spliced.as_str()).is_none());
    let sorted = format!("({}{})", inner2, inner1);
    assert!(SnapShotTree::decode(sorted.as_str()).is_some());
}

#[test]
fn empty_tree_encodes_to_bare_parentheses() {
    let t = SnapShotTree::new();
    assert_eq!(t.encode(), "()");
    let back = SnapShotTree::decode("()").unwrap();
    assert_eq!(back.entry_count(), 0);
}

#[test]
fn tree_identity_tracks_content() {
    let t = sample_tree();
    let same = sample_tree();
    assert_eq!(t.object_id().to_text(), same.object_id().to_text());
    let mut changed = sample_tree();
    changed.insert(String::from("file"), DirectoryEntry::File(ObjectID::of(b"other")));
    assert_ne!(t.object_id().to_text(), changed.object_id().to_text());
}

#[test]
fn materialize_plan_lists_directories_before_their_contents() {
    let t = sample_tree();
    let plan = ys_core::render::materialize_plan(&t);
    let shape: Vec<(String, bool)> = plan
        .iter()
        .map(|(path, step)| {
            (path.clone(), matches!(step, ys_core::render::MaterializeStep::WriteFile(_)))
        })
        .collect();
    assert_eq!(
        shape,
        vec![
            (String::from("dir"), false),
            (String::from("dir/nested"), true),
            (String::from("empty"), false),
            (String::from("file"), true),
        ]
    );
    match &plan[3].1 {
        ys_core::render::MaterializeStep::WriteFile(id) => {
            assert_eq!(id.to_text(), ys_core::object_id::ObjectID::of(b"content").to_text());
        }
        _ => panic!("the file step must carry its blob's identifier"),
    }
}

#[test]
fn commit_codec_round_trip() {
    let mut parents = vec![ObjectID::of(b"p1"), ObjectID::of(b"p2")];
    parents.sort_by(|a, b| match a.compare(b) {
        -1 => std::cmp::Ordering::Less,
        0 => std::cmp::Ordering::Equal,
        _ => std::cmp::Ordering::Greater,
    });
    let commit = Commit {
        tree: ObjectID::of(b"the tree"),
        parents,
        message: String::from("a message, with\nseveral lines"),
        authors: vec![AuthorID::of("someone")],
        timestamp: 123456789,
    };
    let text = commit.encode();
    let back = Commit::decode(text.as_str()).unwrap();
    assert!(back.tree == commit.tree);
    assert_eq!(back.parents.len(), 2);
    assert!(back.parents[0] == commit.parents[0]);
    assert!(back.parents[1] == commit.parents[1]);
    assert_eq!(back.message, commit.message);
    assert_eq!(back.authors.len(), 1);
    assert_eq!(back.timestamp, commit.timestamp);
    assert_eq!(back.encode(), text);
}

#[test]
fn commit_decode_rejects_garbage() {
    assert!(Commit::decode("").is_none());
    assert!(Commit::decode("C").is_none());
    let commit = Commit {
        tree: ObjectID::of(b"t"),
        parents: Vec::new(),
        message: String::new(),
        authors: Vec::new(),
        timestamp: 0,
    };
    let mut text = commit.encode();
    text.push('x');
    assert!(Commit::decode(text.as_str()).is_none());
}

#[test]
fn commit_identity_covers_every_field() {
    let base = Commit {
        tree: ObjectID::of(b"t"),
        parents: Vec::new(),
        message: String::from("m"),
        authors: Vec::new(),
        timestamp: 7,
    };
    let later = Commit {
        tree: ObjectID::of(b"t"),
        parents: Vec::new(),
        message: String::from("m"),
        authors: Vec::new(),
        timestamp: 8,
    };
    assert_ne!(base.object_id().to_text(), later.object_id().to_text());
    let reworded = Commit {
        tree: ObjectID::of(b"t"),
        parents: Vec::new(),
        message: String::from("m2"),
        authors: Vec::new(),
        timestamp: 7,
    };
    assert_ne!(base.object_id().to_text(), reworded.object_id().to_text());
}
