//! Object identity: a 256-bit content digest. Two byte sequences with equal
//! content always yield equal identifiers, and the identifier is the sole name
//! of every stored object.

use vstd::prelude::*;

use crate::errors::{YsError, YsErrorKind};
use crate::text::{bytes_of_hex, hex_of, hex_string, is_hex_char, lemma_hex_round_trip, parse_hex};
use vstd::string::StringSliceAdditionalSpecFns;

verus! {

/// The 256-bit content digest of a byte sequence, as the fixed hash algorithm
/// of the store computes it. Its value depends on the bytes alone.
pub uninterp spec fn digest_of(bytes: Seq<u8>) -> Seq<u8>;

/// Relies on blake3::hash, a keyless digest whose 32-byte output depends on
/// the input bytes alone.
#[verifier::external_body]
fn blake3_digest(bytes: &[u8]) -> (r: Vec<u8>)
    ensures
        r@ == digest_of(bytes@),
        r@.len() == 32,
{
    blake3::hash(bytes).as_bytes().to_vec()
}

/// A 256-bit object identifier: the content digest of the identified bytes.
#[derive(Debug)]
pub struct ObjectID {
    digest: Vec<u8>,
}

impl View for ObjectID {
    type V = Seq<u8>;

    closed spec fn view(&self) -> Seq<u8> {
        self.digest@
    }
}

impl ObjectID {
    /// A well-formed identifier holds exactly 32 digest bytes.
    pub open spec fn well_formed(&self) -> bool {
        self@.len() == 32
    }

    /// The identifier of a byte sequence: its content digest.
    pub fn of(bytes: &[u8]) -> (r: Self)
        ensures
            r@ == digest_of(bytes@),
            r.well_formed(),
    {
        ObjectID { digest: blake3_digest(bytes) }
    }

    /// An identifier from its raw digest bytes.
    pub(crate) fn from_digest(digest: Vec<u8>) -> (r: Self)
        requires
            digest@.len() == 32,
        ensures
            r@ == digest@,
            r.well_formed(),
    {
        ObjectID { digest }
    }

    /// A value-equal copy of this identifier.
    pub fn duplicate(&self) -> (r: Self)
        ensures
            r@ == self@,
    {
        ObjectID { digest: clone_bytes(&self.digest) }
    }

    /// The canonical lowercase hexadecimal text of this identifier.
    pub fn to_text(&self) -> (s: String)
        ensures
            s@ == hex_of(self@),
    {
        hex_string(self.digest.as_slice())
    }

    /// Reads an identifier back from its hexadecimal text. Succeeds exactly on
    /// 64 hexadecimal digits, in either letter case; anything else is rejected
    /// as an invalid identifier.
    pub fn from_text(s: &str) -> (r: Result<Self, YsError>)
        ensures
            match r {
                Ok(id) => id.well_formed() && s@.len() == 64 && (forall|i: int|
                    0 <= i < s@.len() ==> is_hex_char(#[trigger] s@[i])) && id@ == bytes_of_hex(
                    s@,
                ),
                Err(e) => e.kind is InvalidID && (s@.len() != 64 || exists|i: int|
                    0 <= i < s@.len() && !is_hex_char(#[trigger] s@[i])),
            },
    {
        if s.unicode_len() != 64 {
            return Err(YsError::invalid_id());
        }
        match parse_hex(s) {
            Some(v) => Ok(ObjectID { digest: v }),
            None => Err(YsError::invalid_id()),
        }
    }

    /// Reading back the text of an identifier gives the identifier.
    pub proof fn lemma_text_round_trip(&self)
        requires
            self.well_formed(),
        ensures
            hex_of(self@).len() == 64,
            bytes_of_hex(hex_of(self@)) == self@,
            forall|i: int| 0 <= i < 64 ==> is_hex_char(#[trigger] hex_of(self@)[i]),
    {
        lemma_hex_round_trip(self@);
    }
}

/// Object identity is deterministic: equal byte sequences always yield equal
/// identifiers, so the identifier is a stable identity for stored content.
/// That distinct sequences yield distinct identifiers is the hash's collision
/// resistance, assumed of the algorithm and never stated here.
pub proof fn lemma_identity_deterministic(b1: Seq<u8>, b2: Seq<u8>)
    requires
        b1 == b2,
    ensures
        digest_of(b1) == digest_of(b2),
{
}

/// An author's identity: the content digest of the author's name text.
#[derive(Debug)]
pub struct AuthorID {
    digest: Vec<u8>,
}

impl View for AuthorID {
    type V = Seq<u8>;

    closed spec fn view(&self) -> Seq<u8> {
        self.digest@
    }
}

impl AuthorID {
    /// A well-formed author identifier holds exactly 32 digest bytes.
    pub open spec fn well_formed(&self) -> bool {
        self@.len() == 32
    }

    /// The identifier of an author: the digest of the name's bytes.
    pub fn of(name: &str) -> (r: Self)
        ensures
            r@ == digest_of(name.spec_bytes()),
            r.well_formed(),
    {
        AuthorID { digest: blake3_digest(name.as_bytes()) }
    }

    /// An author identifier from its raw digest bytes.
    pub(crate) fn from_digest(digest: Vec<u8>) -> (r: Self)
        requires
            digest@.len() == 32,
        ensures
            r@ == digest@,
            r.well_formed(),
    {
        AuthorID { digest }
    }

    /// A value-equal copy of this identifier.
    pub fn duplicate(&self) -> (r: Self)
        ensures
            r@ == self@,
    {
        AuthorID { digest: clone_bytes(&self.digest) }
    }

    /// The canonical lowercase hexadecimal text of this identifier.
    pub fn to_text(&self) -> (s: String)
        ensures
            s@ == hex_of(self@),
    {
        hex_string(self.digest.as_slice())
    }

    /// Compares two author identifiers byte-wise, for keeping author lists in
    /// one canonical order.
    pub fn compare(&self, other: &AuthorID) -> (r: i8)
        ensures
            r == -1i8 ==> bytes_lt(self@, other@),
            r == 0i8 ==> self@ =~= other@,
            r == 1i8 ==> bytes_lt(other@, self@),
            r == -1i8 || r == 0i8 || r == 1i8,
    {
        bytes_compare(&self.digest, &other.digest)
    }
}

impl ObjectID {
    /// Compares two object identifiers byte-wise: the byte-lexicographic
    /// order of the digests, used wherever identifiers must be listed in one
    /// canonical order.
    pub fn compare(&self, other: &ObjectID) -> (r: i8)
        ensures
            r == -1i8 ==> bytes_lt(self@, other@),
            r == 0i8 ==> self@ =~= other@,
            r == 1i8 ==> bytes_lt(other@, self@),
            r == -1i8 || r == 0i8 || r == 1i8,
    {
        bytes_compare(&self.digest, &other.digest)
    }
}

impl PartialEq for ObjectID {
    fn eq(&self, other: &ObjectID) -> (r: bool) {
        bytes_equal(&self.digest, &other.digest)
    }
}

impl vstd::std_specs::cmp::PartialEqSpecImpl for ObjectID {
    open spec fn obeys_eq_spec() -> bool {
        true
    }

    open spec fn eq_spec(&self, other: &ObjectID) -> bool {
        self@ == other@
    }
}

impl Eq for ObjectID {}

/// Strict lexicographic order on byte sequences; a proper prefix comes before
/// its extensions. On equal lengths this is the usual byte-wise order.
pub open spec fn bytes_lt(a: Seq<u8>, b: Seq<u8>) -> bool
    decreases a.len(),
{
    if b.len() == 0 {
        false
    } else if a.len() == 0 {
        true
    } else if a[0] < b[0] {
        true
    } else if a[0] == b[0] {
        bytes_lt(a.drop_first(), b.drop_first())
    } else {
        false
    }
}

/// Compares two byte vectors in the order of `bytes_lt`: negative when `a`
/// comes first, zero when equal, positive when `b` comes first.
pub fn bytes_compare(a: &Vec<u8>, b: &Vec<u8>) -> (r: i8)
    ensures
        r == -1i8 ==> bytes_lt(a@, b@),
        r == 0i8 ==> a@ =~= b@,
        r == 1i8 ==> bytes_lt(b@, a@),
        r == -1i8 || r == 0i8 || r == 1i8,
{
    let mut i: usize = 0;
    while i < a.len() && i < b.len()
        invariant
            i <= a@.len(),
            i <= b@.len(),
            forall|j: int| 0 <= j < i ==> a@[j] == b@[j],
        decreases a@.len() - i,
    {
        if a[i] < b[i] {
            proof {
                lemma_bytes_common_prefix_lt(a@, b@, i as int);
            }
            return -1;
        }
        if a[i] > b[i] {
            proof {
                lemma_bytes_common_prefix_lt(b@, a@, i as int);
            }
            return 1;
        }
        i = i + 1;
    }
    if a.len() < b.len() {
        proof {
            lemma_bytes_prefix_lt(a@, b@);
        }
        -1
    } else if a.len() > b.len() {
        proof {
            lemma_bytes_prefix_lt(b@, a@);
        }
        1
    } else {
        proof {
            assert(a@ =~= b@);
        }
        0
    }
}

/// Of two distinct byte sequences, exactly one comes first.
pub proof fn lemma_bytes_trichotomy(a: Seq<u8>, b: Seq<u8>)
    ensures
        bytes_lt(a, b) || bytes_lt(b, a) || a =~= b,
        bytes_lt(a, b) ==> !bytes_lt(b, a) && !(a =~= b),
        bytes_lt(b, a) ==> !bytes_lt(a, b) && !(a =~= b),
    decreases a.len(),
{
    if a.len() == 0 || b.len() == 0 {
    } else {
        lemma_bytes_trichotomy(a.drop_first(), b.drop_first());
        if a[0] == b[0] {
            if a.drop_first() =~= b.drop_first() {
                assert forall|i: int| 0 <= i < a.len() implies a[i] == b[i] by {
                    if i > 0 {
                        assert(a.drop_first()[i - 1] == b.drop_first()[i - 1]);
                    }
                }
                assert(a =~= b);
            }
            assert(a =~= b ==> a.drop_first() =~= b.drop_first());
        }
    }
}

/// The byte order is transitive.
pub proof fn lemma_bytes_lt_transitive(a: Seq<u8>, b: Seq<u8>, c: Seq<u8>)
    requires
        bytes_lt(a, b),
        bytes_lt(b, c),
    ensures
        bytes_lt(a, c),
    decreases a.len(),
{
    if a.len() == 0 || b.len() == 0 || c.len() == 0 {
    } else {
        if a[0] == b[0] && b[0] == c[0] {
            lemma_bytes_lt_transitive(a.drop_first(), b.drop_first(), c.drop_first());
        }
    }
}

proof fn lemma_bytes_common_prefix_lt(a: Seq<u8>, b: Seq<u8>, i: int)
    requires
        0 <= i < a.len(),
        i < b.len(),
        forall|j: int| 0 <= j < i ==> a[j] == b[j],
        a[i] < b[i],
    ensures
        bytes_lt(a, b),
    decreases i,
{
    if i > 0 {
        lemma_bytes_common_prefix_lt(a.drop_first(), b.drop_first(), i - 1);
    }
}

proof fn lemma_bytes_prefix_lt(a: Seq<u8>, b: Seq<u8>)
    requires
        a.len() < b.len(),
        forall|j: int| 0 <= j < a.len() ==> a[j] == b[j],
    ensures
        bytes_lt(a, b),
    decreases a.len(),
{
    if a.len() > 0 {
        lemma_bytes_prefix_lt(a.drop_first(), b.drop_first());
    }
}

/// Whether two byte vectors hold the same bytes.
pub fn bytes_equal(a: &Vec<u8>, b: &Vec<u8>) -> (r: bool)
    ensures
        r == (a@ =~= b@),
{
    if a.len() != b.len() {
        return false;
    }
    let mut i: usize = 0;
    while i < a.len()
        invariant
            a@.len() == b@.len(),
            i <= a@.len(),
            forall|j: int| 0 <= j < i ==> a@[j] == b@[j],
        decreases a@.len() - i,
    {
        if a[i] != b[i] {
            return false;
        }
        i = i + 1;
    }
    true
}

/// A byte-for-byte copy of a byte vector.
pub fn clone_bytes(a: &Vec<u8>) -> (r: Vec<u8>)
    ensures
        r@ == a@,
{
    let mut out: Vec<u8> = Vec::new();
    let mut i: usize = 0;
    while i < a.len()
        invariant
            i <= a@.len(),
            out@ =~= a@.subrange(0, i as int),
        decreases a@.len() - i,
    {
        out.push(a[i]);
        i = i + 1;
    }
    proof {
        assert(out@ =~= a@);
    }
    out
}

} // verus!
