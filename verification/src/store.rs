//! The object store: immutable byte blobs keyed by their own content digest.
//! Writes are idempotent, nothing is ever deleted, and both backends answer
//! reads the same way: the in-memory store holds the blobs itself, the local
//! store computes where on disk each blob lives.

use vstd::prelude::*;

use crate::errors::YsError;
use crate::object_id::{clone_bytes, digest_of, ObjectID};
use crate::text::hex_of;

verus! {

broadcast use vstd::std_specs::vec::group_vec_axioms;

/// How many leading hexadecimal digits of an identifier name the shard
/// directory of the local store.
pub const SHARD_PREFIX_LENGTH: usize = 2;

/// The map from identifier bytes to content bytes that an entry list holds;
/// a later entry overrides an earlier one of the same key.
pub open spec fn store_map(es: Seq<(ObjectID, Vec<u8>)>) -> Map<Seq<u8>, Seq<u8>>
    decreases es.len(),
{
    if es.len() == 0 {
        Map::empty()
    } else {
        store_map(es.drop_last()).insert(es.last().0@, es.last().1@)
    }
}

/// Well-formedness of the entry list: keys unique, and every blob keyed by
/// the digest of its own content.
pub open spec fn store_entries_wf(es: Seq<(ObjectID, Vec<u8>)>) -> bool {
    (forall|i: int, j: int|
        0 <= i < j < es.len() ==> (#[trigger] es[i]).0@ != (#[trigger] es[j]).0@) && (forall|i: int|
        0 <= i < es.len() ==> (#[trigger] es[i]).0@ == digest_of(es[i].1@))
}

/// The in-memory object store: every stored blob, keyed by content digest.
#[derive(Debug)]
pub struct MemoryObjectStore {
    /// The stored blobs with their identifiers, in insertion order.
    pub entries: Vec<(ObjectID, Vec<u8>)>,
}

impl View for MemoryObjectStore {
    type V = Map<Seq<u8>, Seq<u8>>;

    open spec fn view(&self) -> Map<Seq<u8>, Seq<u8>> {
        store_map(self.entries@)
    }
}

/// In a list with unique keys, the map lookup of any present key gives that
/// entry's content, and an absent key is not in the map.
pub proof fn lemma_store_map_index(es: Seq<(ObjectID, Vec<u8>)>, key: Seq<u8>)
    requires
        forall|i: int, j: int|
            0 <= i < j < es.len() ==> (#[trigger] es[i]).0@ != (#[trigger] es[j]).0@,
    ensures
        (exists|i: int| 0 <= i < es.len() && (#[trigger] es[i]).0@ == key) <==> store_map(
            es,
        ).contains_key(key),
        forall|i: int|
            0 <= i < es.len() && (#[trigger] es[i]).0@ == key ==> store_map(es).contains_key(key)
                && store_map(es)[key] == es[i].1@,
    decreases es.len(),
{
    if es.len() > 0 {
        assert forall|i: int, j: int|
            0 <= i < j < es.drop_last().len() implies (#[trigger] es.drop_last()[i]).0@ != (
        #[trigger] es.drop_last()[j]).0@ by {
            assert(es.drop_last()[i] == es[i]);
            assert(es.drop_last()[j] == es[j]);
        }
        lemma_store_map_index(es.drop_last(), key);
        assert(es.last() == es[es.len() - 1]);
        assert forall|i: int|
            0 <= i < es.len() && (#[trigger] es[i]).0@ == key implies store_map(
            es,
        ).contains_key(key) && store_map(es)[key] == es[i].1@ by {
            if i < es.len() - 1 {
                assert(es.drop_last()[i] == es[i]);
                assert(es[i].0@ != es[es.len() - 1].0@);
            }
        }
        if exists|i: int| 0 <= i < es.drop_last().len() && (#[trigger] es.drop_last()[i]).0@
            == key {
            let i = choose|i: int|
                0 <= i < es.drop_last().len() && (#[trigger] es.drop_last()[i]).0@ == key;
            assert(es[i] == es.drop_last()[i]);
        }
    }
}

impl MemoryObjectStore {
    /// An empty in-memory store.
    pub fn new() -> (s: Self)
        ensures
            s@ =~= Map::<Seq<u8>, Seq<u8>>::empty(),
            store_entries_wf(s.entries@),
    {
        MemoryObjectStore { entries: Vec::new() }
    }

    /// Whether the store holds a blob under this identifier. Never mutates
    /// and never fails.
    #[verifier::loop_isolation(false)]
    pub fn has(&self, id: &ObjectID) -> (r: bool)
        requires
            store_entries_wf(self.entries@),
        ensures
            r == self@.contains_key(id@),
    {
        proof {
            lemma_store_map_index(self.entries@, id@);
        }
        let mut i: usize = 0;
        while i < self.entries.len()
            invariant
                i <= self.entries@.len(),
                forall|k: int| 0 <= k < i ==> (#[trigger] self.entries@[k]).0@ != id@,
            decreases self.entries@.len() - i,
        {
            if &self.entries[i].0 == id {
                proof {
                    lemma_store_map_index(self.entries@, id@);
                }
                return true;
            }
            i = i + 1;
        }
        false
    }

    /// The blob stored under this identifier; an identifier the store does
    /// not hold is reported as a missing object, carrying the identifier.
    #[verifier::loop_isolation(false)]
    pub fn get(&self, id: &ObjectID) -> (r: Result<Vec<u8>, YsError>)
        requires
            store_entries_wf(self.entries@),
        ensures
            match r {
                Ok(v) => self@.contains_key(id@) && v@ == self@[id@],
                Err(e) => !self@.contains_key(id@) && (e.kind
                    matches crate::errors::YsErrorKind::MissingObject { id: i } && i@ == id@),
            },
    {
        proof {
            lemma_store_map_index(self.entries@, id@);
        }
        let mut i: usize = 0;
        while i < self.entries.len()
            invariant
                i <= self.entries@.len(),
                forall|k: int| 0 <= k < i ==> (#[trigger] self.entries@[k]).0@ != id@,
            decreases self.entries@.len() - i,
        {
            if &self.entries[i].0 == id {
                proof {
                    lemma_store_map_index(self.entries@, id@);
                }
                return Ok(clone_bytes(&self.entries[i].1));
            }
            i = i + 1;
        }
        Err(YsError::missing_object(id.duplicate()))
    }

    /// Stores a blob under the digest of its content and returns that
    /// identifier. Storing content that is already present leaves the store
    /// with the same blobs; the write never fails.
    #[verifier::loop_isolation(false)]
    pub fn put(&mut self, bytes: &[u8]) -> (r: Result<ObjectID, YsError>)
        requires
            store_entries_wf(old(self).entries@),
        ensures
            store_entries_wf(final(self).entries@),
            r matches Ok(id) && id@ == digest_of(bytes@) && id.well_formed(),
            final(self)@ =~= old(self)@.insert(digest_of(bytes@), bytes@),
    {
        let id = ObjectID::of(bytes);
        let ghost es0 = self.entries@;
        let mut i: usize = 0;
        while i < self.entries.len()
            invariant
                self.entries@ == es0,
                i <= es0.len(),
                id@ == digest_of(bytes@),
                forall|k: int| 0 <= k < i ==> (#[trigger] es0[k]).0@ != digest_of(bytes@),
            decreases es0.len() - i,
        {
            if &self.entries[i].0 == &id {
                let fresh = slice_to_copy(bytes);
                let stored_id = id.duplicate();
                self.entries[i] = (stored_id, fresh);
                proof {
                    let es1 = self.entries@;
                    assert(es1 == es0.update(i as int, es1[i as int]));
                    assert(es1[i as int].0@ == es0[i as int].0@);
                    assert(es1[i as int].1@ == bytes@);
                    assert forall|a: int, b: int|
                        0 <= a < b < es1.len() implies (#[trigger] es1[a]).0@ != (
                    #[trigger] es1[b]).0@ by {
                        assert(es1[a].0@ == es0[a].0@);
                        assert(es1[b].0@ == es0[b].0@);
                    }
                    assert forall|a: int| 0 <= a < es1.len() implies (#[trigger] es1[a]).0@
                        == digest_of(es1[a].1@) by {
                        if a != i {
                            assert(es1[a] == es0[a]);
                        }
                    }
                    lemma_store_map_update(es0, es1, i as int);
                }
                return Ok(id);
            }
            i = i + 1;
        }
        let content = slice_to_copy(bytes);
        let stored_id = id.duplicate();
        let ghost pushed = (stored_id, content);
        self.entries.push((stored_id, content));
        proof {
            assert(self.entries@ =~= es0.push(pushed));
            assert forall|a: int, b: int|
                0 <= a < b < self.entries@.len() implies (#[trigger] self.entries@[a]).0@ != (
            #[trigger] self.entries@[b]).0@ by {
                if b < es0.len() {
                    assert(self.entries@[a] == es0[a]);
                    assert(self.entries@[b] == es0[b]);
                } else {
                    assert(self.entries@[a] == es0[a]);
                    assert(self.entries@[b] == pushed);
                }
            }
            assert forall|a: int| 0 <= a < self.entries@.len() implies (
            #[trigger] self.entries@[a]).0@ == digest_of(self.entries@[a].1@) by {
                if a < es0.len() {
                    assert(self.entries@[a] == es0[a]);
                }
            }
            assert(self.entries@.drop_last() =~= es0);
            assert(self.entries@.last() == pushed);
        }
        Ok(id)
    }
}

/// Replacing one entry's content under its unchanged key updates the map at
/// that key alone.
pub proof fn lemma_store_map_update(
    es: Seq<(ObjectID, Vec<u8>)>,
    es2: Seq<(ObjectID, Vec<u8>)>,
    i: int,
)
    requires
        forall|a: int, b: int|
            0 <= a < b < es.len() ==> (#[trigger] es[a]).0@ != (#[trigger] es[b]).0@,
        0 <= i < es.len(),
        es2 == es.update(i, es2[i]),
        es2.len() == es.len(),
        es2[i].0@ == es[i].0@,
    ensures
        store_map(es2) =~= store_map(es).insert(es[i].0@, es2[i].1@),
    decreases es.len(),
{
    assert(es2.last() == es2[es.len() - 1]);
    assert(es.last() == es[es.len() - 1]);
    if i == es.len() - 1 {
        assert(es2.drop_last() =~= es.drop_last());
    } else {
        assert forall|a: int, b: int|
            0 <= a < b < es.drop_last().len() implies (#[trigger] es.drop_last()[a]).0@ != (
        #[trigger] es.drop_last()[b]).0@ by {
            assert(es.drop_last()[a] == es[a]);
            assert(es.drop_last()[b] == es[b]);
        }
        assert(es2.drop_last() =~= es.drop_last().update(i, es2[i]));
        assert(es2.drop_last()[i] == es2[i]);
        assert(es.drop_last()[i] == es[i]);
        lemma_store_map_update(es.drop_last(), es2.drop_last(), i);
        assert(es[i].0@ != es[es.len() - 1].0@);
        assert(es2[es.len() - 1] == es[es.len() - 1]);
    }
}

/// A fresh owned copy of a byte slice.
fn slice_to_copy(bytes: &[u8]) -> (r: Vec<u8>)
    ensures
        r@ == bytes@,
{
    let mut out: Vec<u8> = Vec::new();
    let mut i: usize = 0;
    while i < bytes.len()
        invariant
            i <= bytes@.len(),
            out@ =~= bytes@.subrange(0, i as int),
        decreases bytes@.len() - i,
    {
        out.push(bytes[i]);
        i = i + 1;
    }
    proof {
        assert(out@ =~= bytes@);
    }
    out
}

/// Storing a blob and reading its identifier back gives exactly the stored
/// bytes, whatever the store held before, the empty blob included.
pub proof fn lemma_put_get_round_trip(m: Map<Seq<u8>, Seq<u8>>, b: Seq<u8>)
    ensures
        m.insert(digest_of(b), b).contains_key(digest_of(b)),
        m.insert(digest_of(b), b)[digest_of(b)] == b,
{
}

/// Storing the same content twice returns the same identifier both times and
/// leaves the store exactly as after the first write.
pub proof fn lemma_put_idempotent(m: Map<Seq<u8>, Seq<u8>>, b: Seq<u8>)
    ensures
        m.insert(digest_of(b), b).insert(digest_of(b), b) =~= m.insert(digest_of(b), b),
{
}

/// The local object store: computes, for each identifier, the path of the
/// blob's file under its root, sharded by a fixed-length prefix of the
/// hexadecimal identifier to bound directory fanout.
#[derive(Debug)]
pub struct LocalObjectStore {
    /// The directory that holds the sharded blob files, as path text.
    pub root: String,
}

impl LocalObjectStore {
    /// A local store rooted at the given directory path.
    pub fn new(root: String) -> (s: Self)
        ensures
            s.root@ == root@,
    {
        LocalObjectStore { root }
    }

    /// The path of the file that holds the blob with this identifier: the
    /// root, the shard directory named by the first hexadecimal digits, and
    /// the remaining digits as the file name.
    pub fn store_path(&self, id: &ObjectID) -> (s: String)
        requires
            id.well_formed(),
        ensures
            s@ == self.root@ + seq!['/'] + hex_of(id@).take(SHARD_PREFIX_LENGTH as int) + seq![
                '/',
            ] + hex_of(id@).skip(SHARD_PREFIX_LENGTH as int),
    {
        proof {
            reveal_strlit("/");
        }
        let hex = id.to_text();
        let mut s = self.root.clone();
        s.append("/");
        s.append(hex.as_str().substring_char(0, SHARD_PREFIX_LENGTH));
        s.append("/");
        s.append(hex.as_str().substring_char(SHARD_PREFIX_LENGTH, 64));
        proof {
            assert(hex@.subrange(0, SHARD_PREFIX_LENGTH as int) =~= hex_of(id@).take(
                SHARD_PREFIX_LENGTH as int,
            ));
            assert(hex@.subrange(SHARD_PREFIX_LENGTH as int, 64) =~= hex_of(id@).skip(
                SHARD_PREFIX_LENGTH as int,
            ));
        }
        s
    }
}

/// A stand-in store for tests of callers: it owns nothing, and reports an
/// identifier as present exactly when the last digest byte is even.
#[derive(Debug)]
pub struct FakeObjectManager {
}

impl FakeObjectManager {
    /// Whether the stand-in reports this identifier as present.
    #[verifier::loop_isolation(false)]
    pub fn has(&self, id: &ObjectID) -> (r: bool)
        requires
            id.well_formed(),
        ensures
            r == (id@.last() % 2 == 0),
    {
        let text = id.to_text();
        let last = text.as_str().get_char(63);
        proof {
            assert(hex_of(id@)[63] == crate::text::hex_digit((id@[31] % 16) as u8));
            crate::text::lemma_hex_digit_val((id@[31] % 16) as u8);
            assert((id@[31] % 16) % 2 == id@[31] % 2) by (nonlinear_arith);
            assert(id@.last() == id@[31]);
        }
        let v = match crate::text::hex_char_value(last) {
            Some(v) => v,
            None => 0,
        };
        v % 2 == 0
    }
}

} // verus!
