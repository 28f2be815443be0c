use ys_core::commit::Commit;
use ys_core::ignore::IgnoreRules;
use ys_core::object_id::ObjectID;
use ys_core::repo::{BranchJson, DotYuanShen, InitializeConfig, LocalDotYuanShen};
use ys_core::store::MemoryObjectStore;
use ys_core::tree::{DirectoryEntry, SnapShotTree};

fn fresh_repo(store: &mut MemoryObjectStore) -> DotYuanShen {
    let config = InitializeConfig {
        current: String::from("work"),
        initial_branch: String::from("master"),
        ignores: IgnoreRules::default(),
    };
    config.generate(store, 1000).unwrap()
}

#[test]
fn initialize_points_the_first_branch_at_a_root_commit() {
    let mut store = MemoryObjectStore::new();
    let repo = fresh_repo(&mut store);
    assert_eq!(repo.get_branch(), "master");
    let tip = repo.get_branch_snapshot_id("master").unwrap();
    let bytes = store.get(&tip).unwrap();
    let commit = Commit::decode(String::from_utf8(bytes).unwrap().as_str()).unwrap();
    assert!(commit.parents.is_empty());
    assert_eq!(commit.message, "Project initialized!");
    let tree_bytes = store.get(&commit.tree).unwrap();
    let tree = SnapShotTree::decode(String::from_utf8(tree_bytes).unwrap().as_str()).unwrap();
    assert_eq!(tree.entry_count(), 0);
}

#[test]
fn commit_lifecycle_links_parents_and_moves_the_tip() {
    let mut store = MemoryObjectStore::new();
    let mut repo = fresh_repo(&mut store);

    let mut tree1 = SnapShotTree::new();
    tree1.insert(String::from("a"), DirectoryEntry::File(ObjectID::of(b"one")));
    let first = repo
        .commit_snapshot(&mut store, &tree1, String::from("msg1"), Vec::new(), 1001)
        .unwrap();

    let mut tree2 = SnapShotTree::new();
    tree2.insert(String::from("a"), DirectoryEntry::File(ObjectID::of(b"two")));
    let second = repo
        .commit_snapshot(&mut store, &tree2, String::from("msg2"), Vec::new(), 1002)
        .unwrap();

    let tip = repo.current_snapshot_id().unwrap();
    assert_eq!(tip.to_text(), second.to_text());

    let bytes = store.get(&second).unwrap();
    let commit = Commit::decode(String::from_utf8(bytes).unwrap().as_str()).unwrap();
    assert_eq!(commit.parents.len(), 1);
    assert_eq!(commit.parents[0].to_text(), first.to_text());
    assert_eq!(commit.message, "msg2");
    assert_eq!(commit.timestamp, 1002);
}

#[test]
fn checkout_creates_a_branch_at_the_current_tip() {
    let mut store = MemoryObjectStore::new();
    let mut repo = fresh_repo(&mut store);
    let tip_before = repo.current_snapshot_id().unwrap();
    assert!(!repo.branch_exists("new-branch"));
    repo.checkout("new-branch").unwrap();
    assert_eq!(repo.get_branch(), "new-branch");
    let new_tip = repo.get_branch_snapshot_id("new-branch").unwrap();
    assert_eq!(new_tip.to_text(), tip_before.to_text());
    // the old branch keeps its pointer
    let old_tip = repo.get_branch_snapshot_id("master").unwrap();
    assert_eq!(old_tip.to_text(), tip_before.to_text());
}

#[test]
fn missing_branch_is_reported_by_name() {
    let mut store = MemoryObjectStore::new();
    let repo = fresh_repo(&mut store);
    match repo.get_branch_snapshot_id("elsewhere") {
        Err(e) => match e.kind {
            ys_core::errors::YsErrorKind::MissingBranch { name } => {
                assert_eq!(name, "elsewhere");
            }
            other => panic!("wrong error kind: {:?}", other),
        },
        Ok(_) => panic!("a missing branch was resolved"),
    }
}

#[test]
fn difference_between_branches() {
    let mut store = MemoryObjectStore::new();
    let mut repo = fresh_repo(&mut store);

    let mut tree1 = SnapShotTree::new();
    tree1.insert(String::from("foo"), DirectoryEntry::File(ObjectID::of(b"x")));
    repo.commit_snapshot(&mut store, &tree1, String::from("on master"), Vec::new(), 1001)
        .unwrap();

    repo.checkout("feature").unwrap();
    let mut tree2 = SnapShotTree::new();
    tree2.insert(String::from("foo"), DirectoryEntry::File(ObjectID::of(b"x")));
    tree2.insert(String::from("bar"), DirectoryEntry::File(ObjectID::of(b"y")));
    repo.commit_snapshot(&mut store, &tree2, String::from("on feature"), Vec::new(), 1002)
        .unwrap();

    let d = repo.difference_between(&store, "master", "feature").unwrap();
    assert_eq!(d.render(), "A bar\n");
    let back = repo.difference_between(&store, "feature", "master").unwrap();
    assert_eq!(back.render(), "D bar\n");
}

#[test]
fn dangling_branch_pointer_reports_the_missing_identifier() {
    let store = MemoryObjectStore::new();
    let dangling = ObjectID::of(b"never stored");
    let repo = DotYuanShen::open(
        String::from("work"),
        String::from("master"),
        vec![(String::from("master"), ObjectID::of(b"never stored"))],
        IgnoreRules::default(),
    );
    match repo.load_branch_tree(&store, "master") {
        Err(e) => match e.kind {
            ys_core::errors::YsErrorKind::MissingObject { id } => {
                assert_eq!(id.to_text(), dangling.to_text());
            }
            other => panic!("wrong error kind: {:?}", other),
        },
        Ok(_) => panic!("a dangling pointer resolved"),
    }
}

#[test]
fn commit_with_dangling_tree_reports_the_tree_identifier() {
    let mut store = MemoryObjectStore::new();
    let absent_tree = ObjectID::of(b"absent tree");
    let commit = Commit {
        tree: ObjectID::of(b"absent tree"),
        parents: Vec::new(),
        message: String::from("m"),
        authors: Vec::new(),
        timestamp: 1,
    };
    let tip = store.put(commit.encode().as_bytes()).unwrap();
    let repo = DotYuanShen::open(
        String::from("work"),
        String::from("master"),
        vec![(String::from("master"), tip)],
        IgnoreRules::default(),
    );
    match repo.load_branch_tree(&store, "master") {
        Err(e) => match e.kind {
            ys_core::errors::YsErrorKind::MissingObject { id } => {
                assert_eq!(id.to_text(), absent_tree.to_text());
            }
            other => panic!("wrong error kind: {:?}", other),
        },
        Ok(_) => panic!("a commit with a dangling tree resolved"),
    }
}

#[test]
fn undecodable_stored_bytes_are_a_serialization_failure() {
    let mut store = MemoryObjectStore::new();
    let tip = store.put(b"not the text of any commit").unwrap();
    let repo = DotYuanShen::open(
        String::from("work"),
        String::from("master"),
        vec![(String::from("master"), tip)],
        IgnoreRules::default(),
    );
    assert!(matches!(
        repo.load_branch_tree(&store, "master").unwrap_err().kind,
        ys_core::errors::YsErrorKind::Serialization { .. }
    ));
}

#[test]
fn difference_reports_the_first_branch_first() {
    let mut store = MemoryObjectStore::new();
    let repo = fresh_repo(&mut store);
    match repo.difference_between(&store, "neither", "nor") {
        Err(e) => match e.kind {
            ys_core::errors::YsErrorKind::MissingBranch { name } => {
                assert_eq!(name, "neither");
            }
            other => panic!("wrong error kind: {:?}", other),
        },
        Ok(_) => panic!("two absent branches compared"),
    }
}

#[test]
fn create_branch_returns_the_tip_it_points_at() {
    let mut store = MemoryObjectStore::new();
    let mut repo = fresh_repo(&mut store);
    let current = repo.current_snapshot_id().unwrap();
    let created = repo.create_branch("copy").unwrap();
    assert_eq!(created.to_text(), current.to_text());
    let again = repo.create_branch("copy").unwrap();
    assert_eq!(again.to_text(), current.to_text());
}

#[test]
fn branch_record_round_trip() {
    let id = ObjectID::of(b"tip");
    let record = BranchJson::of(&id);
    assert_eq!(record.tree_id, id.to_text());
    let back = record.object_id().unwrap();
    assert!(back == id);
}

#[test]
fn metadata_paths() {
    let layout = LocalDotYuanShen::new(String::from("work"));
    assert_eq!(layout.branches_directory(), "work/.ys/branches");
    assert_eq!(layout.branch_file(), "work/.ys/branch");
    let id = ObjectID::of(b"");
    assert_eq!(
        layout.store_file(&id),
        "work/.ys/store/af/1349b9f5f9a1a6a0404dea36dcc9499bcb25c9adc112b7cc9a93cae41f3262"
    );
    let config = InitializeConfig {
        current: String::from("work"),
        initial_branch: String::from("master"),
        ignores: IgnoreRules::default(),
    };
    assert_eq!(config.join("branch"), "work/.ys/branch");
    let repo_store = DotYuanShen::open(
        String::from("work"),
        String::from("master"),
        Vec::new(),
        IgnoreRules::default(),
    )
    .store();
    assert_eq!(repo_store.root, "work/.ys/store");
}

#[test]
fn ignore_rules_match_names_and_globs() {
    let rules = IgnoreRules::default();
    assert!(rules.matches(".ys"));
    assert!(!rules.matches("src"));
    let custom = IgnoreRules { glob: vec![String::from("*.tmp"), String::from("target")] };
    assert!(custom.matches("a.tmp"));
    assert!(custom.matches(".tmp"));
    assert!(custom.matches("target"));
    assert!(!custom.matches("targets"));
    assert!(!custom.matches("a.tmpx"));
}

#[test]
fn ignore_record_round_trip() {
    let rules = IgnoreRules { glob: vec![String::from(".git"), String::from(".ys")] };
    let record = rules.record();
    assert_eq!(record, ".git\n.ys\n");
    let back = IgnoreRules::parse(record.as_str());
    assert_eq!(back.glob, rules.glob);
    let with_blanks = IgnoreRules::parse("\n.git\n\n.ys\n");
    assert_eq!(with_blanks.glob, rules.glob);
}
