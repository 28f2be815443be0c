use ys_core::object_id::ObjectID;
use ys_core::store::MemoryObjectStore;

#[test]
fn ready() {
    println!("it works!")
}

const YUAN_SHEN: &[u8] = "\u{6e90}\u{795e}, \u{542f}\u{52a8}!".as_bytes();

#[test]
fn test_memory_object_store() {
    let mut store = MemoryObjectStore::new();
    store.put(YUAN_SHEN).unwrap();

    assert!(store.has(&ObjectID::of(YUAN_SHEN)));
    assert_eq!(store.get(&ObjectID::of(YUAN_SHEN)).unwrap(), Vec::from(YUAN_SHEN));
}

#[test]
fn empty_blob_round_trip() {
    let mut store = MemoryObjectStore::new();
    let id = store.put(b"").unwrap();
    assert!(store.has(&id));
    assert_eq!(store.get(&id).unwrap(), Vec::<u8>::new());
}

#[test]
fn put_is_idempotent() {
    let mut store = MemoryObjectStore::new();
    let first = store.put(b"same content").unwrap();
    let count_after_first = store.entries.len();
    let second = store.put(b"same content").unwrap();
    assert_eq!(first.to_text(), second.to_text());
    assert_eq!(store.entries.len(), count_after_first);
    assert_eq!(store.get(&first).unwrap(), b"same content".to_vec());
}

#[test]
fn get_missing_object_reports_the_id() {
    let store = MemoryObjectStore::new();
    let id = ObjectID::of(b"absent");
    match store.get(&id) {
        Err(e) => match e.kind {
            ys_core::errors::YsErrorKind::MissingObject { id: missing } => {
                assert_eq!(missing.to_text(), id.to_text());
            }
            other => panic!("wrong error kind: {:?}", other),
        },
        Ok(_) => panic!("an absent object was returned"),
    }
}

#[test]
fn equal_content_gives_equal_ids() {
    let a = ObjectID::of(b"abc");
    let b = ObjectID::of(b"abc");
    assert!(a == b);
    let c = ObjectID::of(b"abd");
    assert!(a != c);
}

#[test]
fn id_of_empty_content_is_the_known_digest() {
    let id = ObjectID::of(b"");
    assert_eq!(
        id.to_text(),
        "af1349b9f5f9a1a6a0404dea36dcc9499bcb25c9adc112b7cc9a93cae41f3262"
    );
}

#[test]
fn id_text_round_trip() {
    let id = ObjectID::of(b"round trip");
    let back = ObjectID::from_text(id.to_text().as_str()).unwrap();
    assert!(id == back);
}

#[test]
fn id_text_accepts_uppercase() {
    let id = ObjectID::of(b"case");
    let upper = id.to_text().to_uppercase();
    let back = ObjectID::from_text(upper.as_str()).unwrap();
    assert!(id == back);
}

#[test]
fn malformed_id_text_is_invalid() {
    assert!(matches!(
        ObjectID::from_text("abc").unwrap_err().kind,
        ys_core::errors::YsErrorKind::InvalidID
    ));
    assert!(matches!(
        ObjectID::from_text("zz1349b9f5f9a1a6a0404dea36dcc9499bcb25c9adc112b7cc9a93cae41f32")
            .unwrap_err()
            .kind,
        ys_core::errors::YsErrorKind::InvalidID
    ));
}

#[test]
fn fake_object_manager_answers_by_parity() {
    let fake = ys_core::store::FakeObjectManager {};
    // the empty content's digest ends in 0x62, an even byte
    assert!(fake.has(&ObjectID::of(b"")));
    // "a" hashes to ...2f (odd final byte)
    let odd = ObjectID::of(b"a");
    let text = odd.to_text();
    let last = u8::from_str_radix(&text[62..64], 16).unwrap();
    assert_eq!(fake.has(&odd), last % 2 == 0);
}

#[test]
fn local_store_paths_are_sharded() {
    let store = ys_core::store::LocalObjectStore::new(String::from("objects"));
    let id = ObjectID::of(b"");
    assert_eq!(
        store.store_path(&id),
        "objects/af/1349b9f5f9a1a6a0404dea36dcc9499bcb25c9adc112b7cc9a93cae41f3262"
    );
}
