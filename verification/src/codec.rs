//! The canonical text encoding of stored structured objects. Equal values
//! always encode to equal text, so the identifier of the encoded bytes is a
//! stable identity for the value; and the text decodes back to the value it
//! was made from.
//!
//! Numbers are fixed fields of sixteen hexadecimal digits, names and nested
//! trees follow their length or their own delimiters, so the format needs no
//! escaping and any character may appear in a name.

use vstd::prelude::*;

use crate::object_id::ObjectID;
use crate::text::{hex_of, hex_string, lemma_hex_round_trip};
use crate::tree::{
    entries_equiv, entries_sorted, entries_wf, entry_wf, tree_wf, DirectoryEntry, SnapShotTree,
};

verus! {

broadcast use vstd::std_specs::vec::group_vec_axioms;

/// The eight bytes of a number, most significant first.
#[verifier::opaque]
pub open spec fn u64_bytes(n: u64) -> Seq<u8> {
    seq![
        (n / 0x100000000000000) as u8,
        ((n / 0x1000000000000) % 256) as u8,
        ((n / 0x10000000000) % 256) as u8,
        ((n / 0x100000000) % 256) as u8,
        ((n / 0x1000000) % 256) as u8,
        ((n / 0x10000) % 256) as u8,
        ((n / 0x100) % 256) as u8,
        (n % 256) as u8,
    ]
}

/// The number spelled by eight bytes, most significant first.
pub open spec fn u64_of_bytes(b: Seq<u8>) -> int {
    b[0] * 0x100000000000000 + b[1] * 0x1000000000000 + b[2] * 0x10000000000 + b[3] * 0x100000000
        + b[4] * 0x1000000 + b[5] * 0x10000 + b[6] * 0x100 + b[7]
}

/// Reading the eight bytes of a number back gives the number.
#[verifier::rlimit(100)]
pub proof fn lemma_u64_bytes_value(n: u64)
    ensures
        u64_bytes(n).len() == 8,
        u64_of_bytes(u64_bytes(n)) == n,
{
    reveal(u64_bytes);
    let x = n as int;
    vstd::arithmetic::div_mod::lemma_fundamental_div_mod(x, 0x100);
    vstd::arithmetic::div_mod::lemma_fundamental_div_mod(x / 0x100, 0x100);
    vstd::arithmetic::div_mod::lemma_fundamental_div_mod(x / 0x10000, 0x100);
    vstd::arithmetic::div_mod::lemma_fundamental_div_mod(x / 0x1000000, 0x100);
    vstd::arithmetic::div_mod::lemma_fundamental_div_mod(x / 0x100000000, 0x100);
    vstd::arithmetic::div_mod::lemma_fundamental_div_mod(x / 0x10000000000, 0x100);
    vstd::arithmetic::div_mod::lemma_fundamental_div_mod(x / 0x1000000000000, 0x100);
    assert((x / 0x100) / 0x100 == x / 0x10000) by (nonlinear_arith);
    assert((x / 0x10000) / 0x100 == x / 0x1000000) by (nonlinear_arith);
    assert((x / 0x1000000) / 0x100 == x / 0x100000000) by (nonlinear_arith);
    assert((x / 0x100000000) / 0x100 == x / 0x10000000000) by (nonlinear_arith);
    assert((x / 0x10000000000) / 0x100 == x / 0x1000000000000) by (nonlinear_arith);
    assert((x / 0x1000000000000) / 0x100 == x / 0x100000000000000) by (nonlinear_arith);
    assert(x / 0x100000000000000 < 0x100);
}

/// The sixteen hexadecimal digits of a number's eight bytes.
pub open spec fn len16_chars(n: u64) -> Seq<char> {
    hex_of(u64_bytes(n))
}

/// Spells a number as its sixteen-digit field.
pub fn len16_string(n: u64) -> (s: String)
    ensures
        s@ == len16_chars(n),
        s@.len() == 16,
{
    let mut b: Vec<u8> = Vec::new();
    b.push((n / 0x100000000000000) as u8);
    b.push(((n / 0x1000000000000) % 256) as u8);
    b.push(((n / 0x10000000000) % 256) as u8);
    b.push(((n / 0x100000000) % 256) as u8);
    b.push(((n / 0x1000000) % 256) as u8);
    b.push(((n / 0x10000) % 256) as u8);
    b.push(((n / 0x100) % 256) as u8);
    b.push((n % 256) as u8);
    proof {
        reveal(u64_bytes);
        assert(b@ =~= u64_bytes(n));
    }
    hex_string(b.as_slice())
}

/// The canonical text of a tree: its entries in name order between
/// parentheses.
pub open spec fn tree_chars(t: SnapShotTree) -> Seq<char>
    decreases t,
{
    seq!['('] + entries_chars(t.entries@) + seq![')']
}

/// The canonical text of an entry list, in order.
pub open spec fn entries_chars(es: Seq<(String, DirectoryEntry)>) -> Seq<char>
    decreases es,
{
    if es.len() == 0 {
        Seq::empty()
    } else {
        entry_chars(es[0]) + entries_chars(es.drop_first())
    }
}

/// The canonical text of one entry: its kind letter, the length field of the
/// name, the name, and the file identifier or the nested tree.
pub open spec fn entry_chars(p: (String, DirectoryEntry)) -> Seq<char>
    decreases p,
{
    match p.1 {
        DirectoryEntry::File(id) => seq!['F'] + len16_chars(p.0@.len() as u64) + p.0@ + hex_of(
            id@,
        ),
        DirectoryEntry::Directory(sub) => seq!['D'] + len16_chars(p.0@.len() as u64) + p.0@
            + tree_chars(sub),
    }
}

/// Encoding one more entry appends its text.
pub proof fn lemma_entries_chars_push(es: Seq<(String, DirectoryEntry)>, x: (String, DirectoryEntry))
    ensures
        entries_chars(es.push(x)) =~= entries_chars(es) + entry_chars(x),
    decreases es.len(),
{
    if es.len() == 0 {
        assert(es.push(x)[0] == x);
        assert(es.push(x).drop_first() =~= Seq::<(String, DirectoryEntry)>::empty());
        assert(entries_chars(es.push(x)) == entry_chars(x) + entries_chars(
            Seq::<(String, DirectoryEntry)>::empty(),
        ));
    } else {
        lemma_entries_chars_push(es.drop_first(), x);
        assert(es.push(x).drop_first() =~= es.drop_first().push(x));
        assert(es.push(x)[0] == es[0]);
        assert(entries_chars(es.push(x)) == entry_chars(es[0]) + entries_chars(
            es.drop_first().push(x),
        ));
        assert(entries_chars(es) == entry_chars(es[0]) + entries_chars(es.drop_first()));
    }
}

impl SnapShotTree {
    /// The canonical text of this tree. Equal tree values always give equal
    /// text, whatever order their entries were built in.
    pub fn encode(&self) -> (s: String)
        ensures
            s@ == tree_chars(*self),
        decreases *self,
    {
        proof {
            reveal_strlit("(");
            reveal_strlit(")");
        }
        let mut s = String::new();
        s.append("(");
        let mut i: usize = 0;
        proof {
            assert(self.spec_entries().take(0) =~= Seq::<(String, DirectoryEntry)>::empty());
            assert(s@ =~= seq!['('] + entries_chars(self.spec_entries().take(0)));
        }
        while i < self.entry_count()
            invariant
                i <= self.spec_entries().len(),
                s@ =~= seq!['('] + entries_chars(self.spec_entries().take(i as int)),
            decreases self.spec_entries().len() - i,
        {
            let pair = self.entry_at(i);
            let name_len: usize = pair.0.unicode_len();
            match &pair.1 {
                DirectoryEntry::File(id) => {
                    proof {
                        reveal_strlit("F");
                    }
                    s.append("F");
                    s.append(len16_string(name_len as u64).as_str());
                    s.append(pair.0.as_str());
                    s.append(id.to_text().as_str());
                },
                DirectoryEntry::Directory(sub) => {
                    proof {
                        reveal_strlit("D");
                        assert(decreases_to!(*self => self.entries));
                        assert(decreases_to!(self.entries => self.entries@));
                        assert(decreases_to!(self.entries@ => self.entries@[i as int]));
                        assert(decreases_to!(self.entries@[i as int] => self.entries@[
                            i as int
                        ].1));
                        assert(*pair == self.entries@[i as int]);
                        assert(pair.1 == self.entries@[i as int].1);
                        assert(self.entries@[i as int].1 == DirectoryEntry::Directory(*sub));
                        assert(decreases_to!(self.entries@[i as int].1 => *sub));
                        sub_tree_len_bound(*sub);
                    }
                    s.append("D");
                    s.append(len16_string(name_len as u64).as_str());
                    s.append(pair.0.as_str());
                    s.append(sub.encode().as_str());
                },
            }
            proof {
                lemma_entries_chars_push(
                    self.spec_entries().take(i as int),
                    self.spec_entries()[i as int],
                );
                assert(self.spec_entries().take(i + 1) =~= self.spec_entries().take(
                    i as int,
                ).push(self.spec_entries()[i as int]));
                assert(s@ =~= seq!['('] + entries_chars(self.spec_entries().take(i + 1)));
            }
            i = i + 1;
        }
        proof {
            assert(self.spec_entries().take(self.spec_entries().len() as int)
                =~= self.spec_entries());
        }
        s.append(")");
        s
    }
}

/// A vector never holds more entries than addresses exist, so an entry count
/// always fits the length field.
proof fn sub_tree_len_bound(t: SnapShotTree)
    ensures
        t.spec_entries().len() < 0x10000000000000000,
{
    assert(vstd::std_specs::vec::spec_vec_len(&t.entries) == t.entries@.len());
}

/// Eight bytes are the bytes of the number they spell.
#[verifier::rlimit(100)]
pub proof fn lemma_u64_bytes_inverse(b: Seq<u8>)
    requires
        b.len() == 8,
    ensures
        0 <= u64_of_bytes(b) < 0x10000000000000000,
        u64_bytes(u64_of_bytes(b) as u64) =~= b,
{
    reveal(u64_bytes);
    let n = u64_of_bytes(b);
    let b0 = b[0] as int;
    let b1 = b[1] as int;
    let b2 = b[2] as int;
    let b3 = b[3] as int;
    let b4 = b[4] as int;
    let b5 = b[5] as int;
    let b6 = b[6] as int;
    let b7 = b[7] as int;
    vstd::arithmetic::div_mod::lemma_fundamental_div_mod_converse(
        n,
        0x100,
        b0 * 0x1000000000000 + b1 * 0x10000000000 + b2 * 0x100000000 + b3 * 0x1000000 + b4
            * 0x10000 + b5 * 0x100 + b6,
        b7,
    );
    vstd::arithmetic::div_mod::lemma_fundamental_div_mod_converse(
        n,
        0x10000,
        b0 * 0x10000000000 + b1 * 0x100000000 + b2 * 0x1000000 + b3 * 0x10000 + b4 * 0x100 + b5,
        b6 * 0x100 + b7,
    );
    vstd::arithmetic::div_mod::lemma_fundamental_div_mod_converse(
        n,
        0x1000000,
        b0 * 0x100000000 + b1 * 0x1000000 + b2 * 0x10000 + b3 * 0x100 + b4,
        b5 * 0x10000 + b6 * 0x100 + b7,
    );
    vstd::arithmetic::div_mod::lemma_fundamental_div_mod_converse(
        n,
        0x100000000,
        b0 * 0x1000000 + b1 * 0x10000 + b2 * 0x100 + b3,
        b4 * 0x1000000 + b5 * 0x10000 + b6 * 0x100 + b7,
    );
    vstd::arithmetic::div_mod::lemma_fundamental_div_mod_converse(
        n,
        0x10000000000,
        b0 * 0x10000 + b1 * 0x100 + b2,
        b3 * 0x100000000 + b4 * 0x1000000 + b5 * 0x10000 + b6 * 0x100 + b7,
    );
    vstd::arithmetic::div_mod::lemma_fundamental_div_mod_converse(
        n,
        0x1000000000000,
        b0 * 0x100 + b1,
        b2 * 0x10000000000 + b3 * 0x100000000 + b4 * 0x1000000 + b5 * 0x10000 + b6 * 0x100 + b7,
    );
    vstd::arithmetic::div_mod::lemma_fundamental_div_mod_converse(
        n,
        0x100000000000000,
        b0,
        b1 * 0x1000000000000 + b2 * 0x10000000000 + b3 * 0x100000000 + b4 * 0x1000000 + b5
            * 0x10000 + b6 * 0x100 + b7,
    );
    assert((n / 0x100000000000000) as u8 as int == b0);
    assert(((n / 0x1000000000000) % 0x100) as u8 as int == b1) by {
        vstd::arithmetic::div_mod::lemma_fundamental_div_mod_converse(
            b0 * 0x100 + b1,
            0x100,
            b0,
            b1,
        );
    }
    assert(((n / 0x10000000000) % 0x100) as u8 as int == b2) by {
        vstd::arithmetic::div_mod::lemma_fundamental_div_mod_converse(
            b0 * 0x10000 + b1 * 0x100 + b2,
            0x100,
            b0 * 0x100 + b1,
            b2,
        );
    }
    assert(((n / 0x100000000) % 0x100) as u8 as int == b3) by {
        vstd::arithmetic::div_mod::lemma_fundamental_div_mod_converse(
            b0 * 0x1000000 + b1 * 0x10000 + b2 * 0x100 + b3,
            0x100,
            b0 * 0x10000 + b1 * 0x100 + b2,
            b3,
        );
    }
    assert(((n / 0x1000000) % 0x100) as u8 as int == b4) by {
        vstd::arithmetic::div_mod::lemma_fundamental_div_mod_converse(
            b0 * 0x100000000 + b1 * 0x1000000 + b2 * 0x10000 + b3 * 0x100 + b4,
            0x100,
            b0 * 0x1000000 + b1 * 0x10000 + b2 * 0x100 + b3,
            b4,
        );
    }
    assert(((n / 0x10000) % 0x100) as u8 as int == b5) by {
        vstd::arithmetic::div_mod::lemma_fundamental_div_mod_converse(
            b0 * 0x10000000000 + b1 * 0x100000000 + b2 * 0x1000000 + b3 * 0x10000 + b4 * 0x100
                + b5,
            0x100,
            b0 * 0x100000000 + b1 * 0x1000000 + b2 * 0x10000 + b3 * 0x100 + b4,
            b5,
        );
    }
    assert(((n / 0x100) % 0x100) as u8 as int == b6) by {
        vstd::arithmetic::div_mod::lemma_fundamental_div_mod_converse(
            b0 * 0x1000000000000 + b1 * 0x10000000000 + b2 * 0x100000000 + b3 * 0x1000000 + b4
                * 0x10000 + b5 * 0x100 + b6,
            0x100,
            b0 * 0x10000000000 + b1 * 0x100000000 + b2 * 0x1000000 + b3 * 0x10000 + b4 * 0x100
                + b5,
            b6,
        );
    }
    assert((n % 0x100) as u8 as int == b7);
}

/// The spelled digits of a number field are lowercase hexadecimal.
pub proof fn lemma_len16_lower(n: u64)
    ensures
        len16_chars(n).len() == 16,
        forall|i: int|
            0 <= i < 16 ==> crate::text::is_lower_hex_char(#[trigger] len16_chars(n)[i]),
{
    reveal(u64_bytes);
    assert forall|i: int|
        0 <= i < 16 implies crate::text::is_lower_hex_char(#[trigger] len16_chars(n)[i]) by {
        let b = u64_bytes(n)[i / 2];
        crate::text::lemma_hex_digit_val((b / 16) as u8);
        crate::text::lemma_hex_digit_val((b % 16) as u8);
    }
}

/// Reads a sixteen-digit number field. Succeeds exactly when sixteen
/// lowercase hexadecimal digits stand at `pos`, and reads back exactly the
/// number whose field stands there.
pub(crate) fn parse_len16(s: &str, pos: usize, len: usize) -> (r: Option<u64>)
    requires
        pos <= len,
        len == s@.len(),
    ensures
        match r {
            Some(n) => pos + 16 <= len && s@.subrange(pos as int, pos + 16) =~= len16_chars(n),
            None => forall|n0: u64|
                !(pos + 16 <= len && s@.subrange(pos as int, pos + 16) =~= len16_chars(n0)),
        },
{
    if len - pos < 16 {
        proof {
            assert forall|n0: u64|
                !(pos + 16 <= len && s@.subrange(pos as int, pos + 16) =~= len16_chars(
                    n0,
                )) by {
                lemma_len16_lower(n0);
            }
        }
        return None;
    }
    let field = s.substring_char(pos, pos + 16);
    match crate::text::parse_hex_lower(field) {
        Some(b) => {
            proof {
                lemma_u64_bytes_inverse(b@);
                crate::text::lemma_hex_lower_inverse(field@);
            }
            let n: u64 = (b[0] as u64) * 0x100000000000000 + (b[1] as u64) * 0x1000000000000 + (
            b[2] as u64) * 0x10000000000 + (b[3] as u64) * 0x100000000 + (b[4] as u64) * 0x1000000
                + (b[5] as u64) * 0x10000 + (b[6] as u64) * 0x100 + (b[7] as u64);
            proof {
                assert(n as int == u64_of_bytes(b@));
                assert(u64_bytes(n) =~= b@);
                assert(len16_chars(n) =~= field@);
            }
            Some(n)
        },
        None => {
            proof {
                assert forall|n0: u64|
                    !(pos + 16 <= len && s@.subrange(pos as int, pos + 16) =~= len16_chars(
                        n0,
                    )) by {
                    lemma_len16_lower(n0);
                    if s@.subrange(pos as int, pos + 16) =~= len16_chars(n0) {
                        assert(field@ =~= len16_chars(n0));
                    }
                }
            }
            None
        },
    }
}

/// Reads a 64-digit identifier field. Succeeds exactly when 64 lowercase
/// hexadecimal digits stand at `pos`, and reads back exactly the identifier
/// whose digits stand there.
pub(crate) fn parse_id_at(s: &str, pos: usize, len: usize) -> (r: Option<ObjectID>)
    requires
        pos <= len,
        len == s@.len(),
    ensures
        match r {
            Some(id) => pos + 64 <= len && id.well_formed() && s@.subrange(pos as int, pos + 64)
                =~= hex_of(id@),
            None => forall|id0: ObjectID|
                id0.well_formed() ==> !(pos + 64 <= len && s@.subrange(pos as int, pos + 64)
                    =~= hex_of(id0@)),
        },
{
    if len - pos < 64 {
        return None;
    }
    let field = s.substring_char(pos, pos + 64);
    match crate::text::parse_hex_lower(field) {
        Some(b) => {
            proof {
                crate::text::lemma_hex_lower_inverse(field@);
            }
            Some(ObjectID::from_digest(b))
        },
        None => {
            proof {
                assert forall|id0: ObjectID| id0.well_formed() implies !(pos + 64 <= len
                    && s@.subrange(pos as int, pos + 64) =~= hex_of(id0@)) by {
                    crate::text::lemma_hex_round_trip(id0@);
                    if s@.subrange(pos as int, pos + 64) =~= hex_of(id0@) {
                        assert(field@ =~= hex_of(id0@));
                        assert forall|i: int|
                            0 <= i < 64 implies crate::text::is_lower_hex_char(
                            #[trigger] field@[i],
                        ) by {
                            let byte = id0@[i / 2];
                            crate::text::lemma_hex_digit_val((byte / 16) as u8);
                            crate::text::lemma_hex_digit_val((byte % 16) as u8);
                        }
                    }
                }
            }
            None
        },
    }
}

/// Two equal number fields spell the same number.
pub proof fn lemma_len16_injective(a: u64, b: u64)
    requires
        len16_chars(a) == len16_chars(b),
    ensures
        a == b,
{
    lemma_hex_round_trip(u64_bytes(a));
    lemma_hex_round_trip(u64_bytes(b));
    lemma_u64_bytes_value(a);
    lemma_u64_bytes_value(b);
}

/// The text of a tree opens with its parenthesis and closes after one.
pub proof fn lemma_tree_chars_shape(t: SnapShotTree)
    ensures
        tree_chars(t).len() == 2 + entries_chars(t.entries@).len(),
        tree_chars(t)[0] == '(',
{
    assert(tree_chars(t)[0] == (seq!['('] + entries_chars(t.entries@) + seq![')'])[0]);
}

/// The text of one well-formed entry opens with its kind letter and its
/// length is the letter, the field, the name, and what the entry holds.
#[verifier::rlimit(100)]
pub proof fn lemma_entry_chars_shape(p: (String, DirectoryEntry))
    requires
        entry_wf(p.1),
    ensures
        entry_chars(p)[0] == 'F' || entry_chars(p)[0] == 'D',
        p.1 is File ==> entry_chars(p)[0] == 'F' && entry_chars(p).len() == 81 + p.0@.len(),
        p.1 is Directory ==> entry_chars(p)[0] == 'D' && entry_chars(p).len() == 17 + p.0@.len()
            + tree_chars(p.1->Directory_0).len(),
        entry_chars(p).len() >= 19,
    decreases p,
{
    lemma_len16_lower(p.0@.len() as u64);
    match p.1 {
        DirectoryEntry::File(id) => {
            assert(entry_chars(p)[0] == (seq!['F'] + len16_chars(p.0@.len() as u64) + p.0@
                + hex_of(id@))[0]);
        },
        DirectoryEntry::Directory(sub) => {
            assert(entry_chars(p)[0] == (seq!['D'] + len16_chars(p.0@.len() as u64) + p.0@
                + tree_chars(sub))[0]);
            lemma_tree_chars_shape(sub);
            if sub.entries@.len() > 0 {
                lemma_entries_chars_split(sub.entries@, 1);
                assert(sub.entries@.take(1)[0] == sub.entries@[0]);
                assert(entries_chars(sub.entries@.take(1)) == entry_chars(sub.entries@[0])
                    + entries_chars(sub.entries@.take(1).drop_first()));
                assert(sub.entries@.take(1).drop_first() =~= Seq::<
                    (String, DirectoryEntry),
                >::empty());
                crate::tree::lemma_entries_wf_index(sub.entries@);
                lemma_entry_chars_shape(sub.entries@[0]);
            }
        },
    }
}

/// The text of an entry list splits at any position.
pub proof fn lemma_entries_chars_split(es: Seq<(String, DirectoryEntry)>, k: int)
    requires
        0 <= k <= es.len(),
    ensures
        entries_chars(es) =~= entries_chars(es.take(k)) + entries_chars(es.skip(k)),
    decreases k,
{
    if k == 0 {
        assert(es.take(0) =~= Seq::<(String, DirectoryEntry)>::empty());
        assert(es.skip(0) =~= es);
    } else {
        lemma_entries_chars_split(es.drop_first(), k - 1);
        assert(es.take(k)[0] == es[0]);
        assert(es.take(k).drop_first() =~= es.drop_first().take(k - 1));
        assert(es.skip(k) =~= es.drop_first().skip(k - 1));
        assert(entries_chars(es) == entry_chars(es[0]) + entries_chars(es.drop_first()));
        assert(entries_chars(es.take(k)) == entry_chars(es[0]) + entries_chars(
            es.drop_first().take(k - 1),
        ));
    }
}

/// Reads a 64-digit author field. Succeeds exactly when 64 lowercase
/// hexadecimal digits stand at `pos`, and reads back exactly the author
/// identifier whose digits stand there.
pub(crate) fn parse_author_at(s: &str, pos: usize, len: usize) -> (r: Option<crate::object_id::AuthorID>)
    requires
        pos <= len,
        len == s@.len(),
    ensures
        match r {
            Some(id) => pos + 64 <= len && id.well_formed() && s@.subrange(pos as int, pos + 64)
                =~= hex_of(id@),
            None => forall|id0: crate::object_id::AuthorID|
                id0.well_formed() ==> !(pos + 64 <= len && s@.subrange(pos as int, pos + 64)
                    =~= hex_of(id0@)),
        },
{
    if len - pos < 64 {
        return None;
    }
    let field = s.substring_char(pos, pos + 64);
    match crate::text::parse_hex_lower(field) {
        Some(b) => {
            proof {
                crate::text::lemma_hex_lower_inverse(field@);
            }
            Some(crate::object_id::AuthorID::from_digest(b))
        },
        None => {
            proof {
                assert forall|id0: crate::object_id::AuthorID|
                    id0.well_formed() implies !(pos + 64 <= len && s@.subrange(
                    pos as int,
                    pos + 64,
                ) =~= hex_of(id0@)) by {
                    crate::text::lemma_hex_round_trip(id0@);
                    if s@.subrange(pos as int, pos + 64) =~= hex_of(id0@) {
                        assert(field@ =~= hex_of(id0@));
                        assert forall|i: int|
                            0 <= i < 64 implies crate::text::is_lower_hex_char(
                            #[trigger] field@[i],
                        ) by {
                            let byte = id0@[i / 2];
                            crate::text::lemma_hex_digit_val((byte / 16) as u8);
                            crate::text::lemma_hex_digit_val((byte % 16) as u8);
                        }
                    }
                }
            }
            None
        },
    }
}

/// Skipping past a known leading piece leaves the rest.
pub proof fn lemma_skip_concat(sv: Seq<char>, p: int, a: Seq<char>, tail: Seq<char>)
    requires
        0 <= p <= sv.len(),
        sv.skip(p) == a + tail,
    ensures
        p + a.len() + tail.len() == sv.len(),
        sv.skip(p + a.len()) =~= tail,
        sv.subrange(p, p + a.len()) =~= a,
{
    assert(sv.skip(p).len() == sv.len() - p);
    assert forall|q: int| 0 <= q < tail.len() implies #[trigger] sv.skip(p + a.len())[q]
        == tail[q] by {
        assert(sv.skip(p + a.len())[q] == sv.skip(p)[q + a.len()]);
    }
    assert forall|q: int| 0 <= q < a.len() implies #[trigger] sv.subrange(p, p + a.len())[q]
        == a[q] by {
        assert(sv.subrange(p, p + a.len())[q] == sv.skip(p)[q]);
    }
}

/// Where each field of one entry's text stands, counted from the entry's
/// first character.
pub proof fn lemma_entry_text_fields(sv: Seq<char>, p: int, e0: (String, DirectoryEntry), tail: Seq<char>)
    requires
        entry_wf(e0.1),
        0 <= p <= sv.len(),
        sv.skip(p) == entry_chars(e0) + tail,
    ensures
        sv.len() - p >= 19,
        sv[p] == entry_chars(e0)[0],
        sv.subrange(p + 1, p + 17) =~= len16_chars(e0.0@.len() as u64),
        sv.subrange(p + 17, p + 17 + e0.0@.len()) =~= e0.0@,
        e0.1 is File ==> sv.subrange(p + 17 + e0.0@.len(), p + 81 + e0.0@.len()) =~= hex_of(
            e0.1->File_0@,
        ) && p + 81 + e0.0@.len() <= sv.len(),
        e0.1 is Directory ==> sv.skip(p + 17 + e0.0@.len()) == tree_chars(e0.1->Directory_0)
            + tail && p + 17 + e0.0@.len() <= sv.len(),
        p + entry_chars(e0).len() <= sv.len(),
{
    lemma_entry_chars_shape(e0);
    lemma_len16_lower(e0.0@.len() as u64);
    assert(sv.skip(p).len() == sv.len() - p);
    assert(sv[p] == sv.skip(p)[0]);
    assert forall|q: int| 0 <= q < 16 implies #[trigger] sv.subrange(p + 1, p + 17)[q]
        == len16_chars(e0.0@.len() as u64)[q] by {
        assert(sv.subrange(p + 1, p + 17)[q] == sv.skip(p)[q + 1]);
        assert(entry_chars(e0)[q + 1] == len16_chars(e0.0@.len() as u64)[q]);
    }
    assert forall|q: int| 0 <= q < e0.0@.len() implies #[trigger] sv.subrange(
        p + 17,
        p + 17 + e0.0@.len(),
    )[q] == e0.0@[q] by {
        assert(sv.subrange(p + 17, p + 17 + e0.0@.len())[q] == sv.skip(p)[q + 17]);
        assert(entry_chars(e0)[q + 17] == e0.0@[q]);
    }
    match e0.1 {
        DirectoryEntry::File(id) => {
            assert forall|q: int| 0 <= q < 64 implies #[trigger] sv.subrange(
                p + 17 + e0.0@.len(),
                p + 81 + e0.0@.len(),
            )[q] == hex_of(id@)[q] by {
                assert(sv.subrange(p + 17 + e0.0@.len(), p + 81 + e0.0@.len())[q] == sv.skip(
                    p,
                )[q + 17 + e0.0@.len()]);
                assert(entry_chars(e0)[q + 17 + e0.0@.len()] == hex_of(id@)[q]);
            }
        },
        DirectoryEntry::Directory(sub) => {
            assert forall|q: int|
                0 <= q < sv.len() - (p + 17 + e0.0@.len()) implies #[trigger] sv.skip(
                p + 17 + e0.0@.len(),
            )[q] == (tree_chars(sub) + tail)[q] by {
                assert(sv.skip(p + 17 + e0.0@.len())[q] == sv.skip(p)[q + 17 + e0.0@.len()]);
                assert((entry_chars(e0) + tail)[q + 17 + e0.0@.len()] == (tree_chars(sub)
                    + tail)[q]);
            }
            assert(sv.skip(p + 17 + e0.0@.len()) =~= tree_chars(sub) + tail);
        },
    }
}

/// Reads the entry whose text stands at `p`, and where it ends. Whenever a
/// well-formed entry's text stands there followed by anything, the read gives
/// back that entry.
#[verifier::rlimit(100)]
fn parse_entry_at(s: &str, p: usize, len: usize) -> (r: Option<(String, DirectoryEntry, usize)>)
    requires
        p <= len,
        len == s@.len(),
    ensures
        match r {
            Some((name, e, end)) => p <= end <= len && entry_wf(e) && s@.subrange(
                p as int,
                end as int,
            ) =~= entry_chars((name, e)),
            None => true,
        },
        forall|e0: (String, DirectoryEntry), tail: Seq<char>|
            entry_wf(e0.1) && s@.skip(p as int) == #[trigger] (entry_chars(e0) + tail) ==> (
            match r {
                Some((name, e, end)) => name@ == e0.0@ && crate::tree::entry_equiv(e, e0.1)
                    && end == p + entry_chars(e0).len(),
                None => false,
            }),
    decreases len - p, 1int,
{
    if p >= len || (s.get_char(p) != 'F' && s.get_char(p) != 'D') {
        proof {
            assert forall|e0: (String, DirectoryEntry), tail: Seq<char>|
                entry_wf(e0.1) && s@.skip(p as int) == #[trigger] (entry_chars(e0)
                    + tail) implies false by {
                lemma_entry_text_fields(s@, p as int, e0, tail);
                lemma_entry_chars_shape(e0);
            }
        }
        return None;
    }
    let c = s.get_char(p);
    let n = match parse_len16(s, p + 1, len) {
        Some(n) => n,
        None => {
            proof {
                assert forall|e0: (String, DirectoryEntry), tail: Seq<char>|
                    entry_wf(e0.1) && s@.skip(p as int) == #[trigger] (entry_chars(e0)
                        + tail) implies false by {
                    lemma_entry_text_fields(s@, p as int, e0, tail);
                }
            }
            return None;
        },
    };
    let p2 = p + 1 + 16;
    if ((len - p2) as u64) < n {
        proof {
            assert forall|e0: (String, DirectoryEntry), tail: Seq<char>|
                entry_wf(e0.1) && s@.skip(p as int) == #[trigger] (entry_chars(e0)
                    + tail) implies false by {
                lemma_entry_text_fields(s@, p as int, e0, tail);
                lemma_entry_chars_shape(e0);
                lemma_len16_injective(n, e0.0@.len() as u64);
            }
        }
        return None;
    }
    let name_len: usize = n as usize;
    let p3 = p2 + name_len;
    let name: String = s.substring_char(p2, p3).to_owned();
    proof {
        assert forall|e0: (String, DirectoryEntry), tail: Seq<char>|
            entry_wf(e0.1) && s@.skip(p as int) == #[trigger] (entry_chars(e0)
                + tail) implies name@ == e0.0@ && s@[p as int] == entry_chars(e0)[0] by {
            lemma_entry_text_fields(s@, p as int, e0, tail);
            lemma_len16_injective(n, e0.0@.len() as u64);
        }
    }
    if c == 'F' {
        let id = match parse_id_at(s, p3, len) {
            Some(id) => id,
            None => {
                proof {
                    assert forall|e0: (String, DirectoryEntry), tail: Seq<char>|
                        entry_wf(e0.1) && s@.skip(p as int) == #[trigger] (entry_chars(e0)
                            + tail) implies false by {
                        lemma_entry_text_fields(s@, p as int, e0, tail);
                        lemma_len16_injective(n, e0.0@.len() as u64);
                        lemma_entry_chars_shape(e0);
                        if e0.1 is Directory {
                            assert(s@[p as int] == 'D');
                        }
                    }
                }
                return None;
            },
        };
        let end = p3 + 64;
        proof {
            assert(s@.subrange(p as int, end as int) =~= seq!['F'] + s@.subrange(p + 1, p + 17)
                + s@.subrange(p2 as int, p3 as int) + s@.subrange(p3 as int, end as int));
            assert(name@.len() == n as usize);
        }
        let e = DirectoryEntry::File(id);
        proof {
            assert(s@.subrange(p as int, end as int) =~= entry_chars((name, e)));
            assert forall|e0: (String, DirectoryEntry), tail: Seq<char>|
                entry_wf(e0.1) && s@.skip(p as int) == #[trigger] (entry_chars(e0)
                    + tail) implies name@ == e0.0@ && crate::tree::entry_equiv(e, e0.1) && end
                == p + entry_chars(e0).len() by {
                lemma_entry_text_fields(s@, p as int, e0, tail);
                lemma_len16_injective(n, e0.0@.len() as u64);
                lemma_entry_chars_shape(e0);
                if e0.1 is Directory {
                    assert(s@[p as int] == 'D');
                    assert(false);
                }
                let id0 = e0.1->File_0;
                assert(hex_of(e->File_0@) =~= hex_of(id0@));
                lemma_hex_round_trip(e->File_0@);
                lemma_hex_round_trip(id0@);
                assert(e->File_0@ == id0@);
            }
        }
        Some((name, e, end))
    } else {
        proof {
            assert forall|e0: (String, DirectoryEntry), tail: Seq<char>|
                entry_wf(e0.1) && s@.skip(p as int) == #[trigger] (entry_chars(e0)
                    + tail) implies e0.1 is Directory && s@.skip(p3 as int) == tree_chars(
                e0.1->Directory_0,
            ) + tail && tree_wf(e0.1->Directory_0) by {
                lemma_entry_text_fields(s@, p as int, e0, tail);
                lemma_len16_injective(n, e0.0@.len() as u64);
                lemma_entry_chars_shape(e0);
                if e0.1 is File {
                    assert(s@[p as int] == 'F');
                }
            }
        }
        let sub = match parse_tree_at(s, p3, len) {
            Some((sub, sub_end)) => {
                let e = DirectoryEntry::Directory(sub);
                let end = sub_end;
                proof {
                    assert(s@.subrange(p as int, end as int) =~= seq!['D'] + s@.subrange(
                        p + 1,
                        p + 17,
                    ) + s@.subrange(p2 as int, p3 as int) + s@.subrange(p3 as int, end as int));
                    assert(name@.len() == n as usize);
                    assert(s@.subrange(p as int, end as int) =~= entry_chars((name, e)));
                    assert forall|e0: (String, DirectoryEntry), tail: Seq<char>|
                        entry_wf(e0.1) && s@.skip(p as int) == #[trigger] (entry_chars(e0)
                            + tail) implies name@ == e0.0@ && crate::tree::entry_equiv(e, e0.1)
                        && end == p + entry_chars(e0).len() by {
                        lemma_entry_text_fields(s@, p as int, e0, tail);
                        lemma_len16_injective(n, e0.0@.len() as u64);
                        lemma_entry_chars_shape(e0);
                    }
                }
                return Some((name, e, end));
            },
            None => {
                proof {
                    assert forall|e0: (String, DirectoryEntry), tail: Seq<char>|
                        entry_wf(e0.1) && s@.skip(p as int) == #[trigger] (entry_chars(e0)
                            + tail) implies false by {
                    }
                }
                return None;
            },
        };
    }
}

/// Reads the tree whose text stands at `pos`, and where it ends. Succeeds
/// exactly when a well-formed tree's text stands there: whenever the input
/// from `pos` on is the text of a well-formed tree followed by anything, the
/// read gives back that tree.
#[verifier::loop_isolation(false)]
#[verifier::rlimit(100)]
fn parse_tree_at(s: &str, pos: usize, len: usize) -> (r: Option<(SnapShotTree, usize)>)
    requires
        pos <= len,
        len == s@.len(),
    ensures
        match r {
            Some((t, end)) => pos <= end <= len && tree_wf(t) && s@.subrange(
                pos as int,
                end as int,
            ) =~= tree_chars(t),
            None => true,
        },
        forall|t0: SnapShotTree, rest: Seq<char>|
            tree_wf(t0) && s@.skip(pos as int) == #[trigger] (tree_chars(t0) + rest) ==> (match r {
                Some((t, end)) => crate::tree::tree_equiv(t, t0) && end == pos + tree_chars(
                    t0,
                ).len(),
                None => false,
            }),
    decreases len - pos, 0int,
{
    if pos >= len || s.get_char(pos) != '(' {
        proof {
            assert forall|t0: SnapShotTree, rest: Seq<char>|
                tree_wf(t0) && s@.skip(pos as int) == #[trigger] (tree_chars(t0)
                    + rest) implies false by {
                lemma_tree_chars_shape(t0);
                assert(s@.skip(pos as int).len() == len - pos);
                assert(s@.skip(pos as int)[0] == s@[pos as int]);
            }
        }
        return None;
    }
    let mut entries: Vec<(String, DirectoryEntry)> = Vec::new();
    let mut p: usize = pos + 1;
    proof {
        assert(s@.subrange(pos + 1, pos + 1) =~= entries_chars(entries@));
        assert forall|t0: SnapShotTree, rest: Seq<char>|
            tree_wf(t0) && s@.skip(pos as int) == #[trigger] (tree_chars(t0) + rest) implies {
            let k = entries@.len() as int;
            &&& k <= t0.entries@.len()
            &&& entries_equiv(entries@, t0.entries@.take(k))
            &&& s@.skip(pos + 1) == entries_chars(t0.entries@.skip(k)) + (seq![')'] + rest)
        } by {
            assert(entries_equiv(entries@, t0.entries@.take(0)));
            assert(s@.skip(pos + 1) =~= s@.skip(pos as int).drop_first());
            assert((tree_chars(t0) + rest).drop_first() =~= entries_chars(t0.entries@) + (seq![
                ')',
            ] + rest));
            assert(t0.entries@.skip(0) =~= t0.entries@);
        }
    }
    loop
        invariant
            pos + 1 <= p <= len,
            s@[pos as int] == '(',
            entries_sorted(entries@),
            entries_wf(entries@),
            s@.subrange(pos + 1, p as int) =~= entries_chars(entries@),
            forall|t0: SnapShotTree, rest: Seq<char>|
                tree_wf(t0) && s@.skip(pos as int) == #[trigger] (tree_chars(t0) + rest) ==> {
                    let k = entries@.len() as int;
                    &&& k <= t0.entries@.len()
                    &&& entries_equiv(entries@, t0.entries@.take(k))
                    &&& s@.skip(p as int) == entries_chars(t0.entries@.skip(k)) + (seq![')']
                        + rest)
                },
        decreases len - p,
    {
        let ghost k = entries@.len() as int;
        proof {
            assert forall|t0: SnapShotTree, rest: Seq<char>|
                tree_wf(t0) && s@.skip(pos as int) == #[trigger] (tree_chars(t0)
                    + rest) implies (k == t0.entries@.len() ==> s@.skip(p as int) == seq![')']
                + rest) && (k < t0.entries@.len() ==> s@.skip(p as int) == entry_chars(
                t0.entries@[k],
            ) + (entries_chars(t0.entries@.skip(k + 1)) + (seq![')'] + rest)) && entry_wf(
                t0.entries@[k].1,
            )) by {
                if k == t0.entries@.len() {
                    assert(t0.entries@.skip(k) =~= Seq::<(String, DirectoryEntry)>::empty());
                    assert(entries_chars(t0.entries@.skip(k)) =~= Seq::<char>::empty());
                    assert(s@.skip(p as int) =~= seq![')'] + rest);
                } else {
                    assert(t0.entries@.skip(k)[0] == t0.entries@[k]);
                    assert(t0.entries@.skip(k).drop_first() =~= t0.entries@.skip(k + 1));
                    assert(entries_chars(t0.entries@.skip(k)) == entry_chars(t0.entries@[k])
                        + entries_chars(t0.entries@.skip(k + 1)));
                    crate::tree::lemma_entries_wf_index(t0.entries@);
                    assert(s@.skip(p as int) =~= entry_chars(t0.entries@[k]) + (entries_chars(
                        t0.entries@.skip(k + 1),
                    ) + (seq![')'] + rest)));
                }
            }
        }
        if p >= len {
            proof {
                assert forall|t0: SnapShotTree, rest: Seq<char>|
                    tree_wf(t0) && s@.skip(pos as int) == #[trigger] (tree_chars(t0)
                        + rest) implies false by {
                    if k < t0.entries@.len() {
                        crate::tree::lemma_entries_wf_index(t0.entries@);
                        lemma_entry_chars_shape(t0.entries@[k]);
                        assert(s@.skip(p as int).len() == 0);
                        assert((entry_chars(t0.entries@[k]) + (entries_chars(
                            t0.entries@.skip(k + 1),
                        ) + (seq![')'] + rest))).len() >= 19);
                    } else {
                        assert(s@.skip(p as int).len() == 0);
                        assert((seq![')'] + rest).len() >= 1);
                    }
                }
            }
            return None;
        }
        let c = s.get_char(p);
        proof {
            assert(s@.skip(p as int)[0] == s@[p as int]);
        }
        if c == ')' {
            let end = p + 1;
            let t = SnapShotTree { entries };
            proof {
                assert(s@.subrange(pos as int, end as int) =~= seq!['('] + entries_chars(
                    t.entries@,
                ) + seq![')']);
                assert forall|t0: SnapShotTree, rest: Seq<char>|
                    tree_wf(t0) && s@.skip(pos as int) == #[trigger] (tree_chars(t0)
                        + rest) implies crate::tree::tree_equiv(t, t0) && end == pos
                    + tree_chars(t0).len() by {
                    if k < t0.entries@.len() {
                        crate::tree::lemma_entries_wf_index(t0.entries@);
                        lemma_entry_chars_shape(t0.entries@[k]);
                        assert(s@[p as int] == (entry_chars(t0.entries@[k]) + (entries_chars(
                            t0.entries@.skip(k + 1),
                        ) + (seq![')'] + rest)))[0]);
                        assert(s@[p as int] == entry_chars(t0.entries@[k])[0]);
                        assert(false);
                    }
                    assert(t0.entries@.take(k) =~= t0.entries@);
                    lemma_tree_chars_shape(t0);
                    assert(s@.skip(p as int) == seq![')'] + rest);
                    assert(s@.skip(p as int).len() == len - p);
                    assert(s@.skip(pos as int).len() == len - pos);
                }
            }
            return Some((t, end));
        }
        let (name, entry, p4) = match parse_entry_at(s, p, len) {
            Some(step) => step,
            None => {
                proof {
                    assert forall|t0: SnapShotTree, rest: Seq<char>|
                        tree_wf(t0) && s@.skip(pos as int) == #[trigger] (tree_chars(t0)
                            + rest) implies false by {
                        if k == t0.entries@.len() {
                            assert(s@[p as int] == (seq![')'] + rest)[0]);
                        }
                    }
                }
                return None;
            },
        };
        proof {
            assert forall|t0: SnapShotTree, rest: Seq<char>|
                tree_wf(t0) && s@.skip(pos as int) == #[trigger] (tree_chars(t0)
                    + rest) implies k < t0.entries@.len() && name@ == t0.entries@[k].0@
                && crate::tree::entry_equiv(entry, t0.entries@[k].1) && p4 == p + entry_chars(
                t0.entries@[k],
            ).len() by {
                if k == t0.entries@.len() {
                    assert(s@[p as int] == (seq![')'] + rest)[0]);
                    assert(false);
                }
            }
        }
        if entries.len() > 0 {
            let last = entries.len() - 1;
            let order = crate::text::str_compare(entries[last].0.as_str(), name.as_str());
            if order != -1 {
                proof {
                    crate::text::lemma_lex_trichotomy(entries@[last as int].0@, name@);
                    assert forall|t0: SnapShotTree, rest: Seq<char>|
                        tree_wf(t0) && s@.skip(pos as int) == #[trigger] (tree_chars(t0)
                            + rest) implies false by {
                        crate::tree::lemma_entries_equiv_index(entries@, t0.entries@.take(k));
                        assert(entries@[last as int].0@ == t0.entries@.take(k)[last as int].0@);
                        assert(t0.entries@.take(k)[last as int] == t0.entries@[last as int]);
                        assert(crate::text::lex_lt(
                            t0.entries@[last as int].0@,
                            t0.entries@[k].0@,
                        ));
                    }
                }
                return None;
            }
        }
        let ghost old_entries = entries@;
        let ghost pushed = (name, entry);
        proof {
            if old_entries.len() > 0 {
                assert forall|m: int| 0 <= m < old_entries.len() implies crate::text::lex_lt(
                    (#[trigger] old_entries[m]).0@,
                    pushed.0@,
                ) by {
                    if m < old_entries.len() - 1 {
                        crate::text::lemma_lex_transitive(
                            old_entries[m].0@,
                            old_entries[old_entries.len() - 1].0@,
                            pushed.0@,
                        );
                    }
                }
            }
        }
        entries.push((name, entry));
        proof {
            assert(entries@ == old_entries.push(pushed));
            assert forall|a: int, b: int|
                0 <= a < b < entries@.len() implies crate::text::lex_lt(
                (#[trigger] entries@[a]).0@,
                (#[trigger] entries@[b]).0@,
            ) by {
                if b < old_entries.len() {
                    assert(entries@[a] == old_entries[a]);
                    assert(entries@[b] == old_entries[b]);
                } else {
                    assert(entries@[a] == old_entries[a]);
                    assert(entries@[b] == pushed);
                }
            }
            crate::diff::lemma_entries_wf_push(old_entries, pushed);
            lemma_entries_chars_push(old_entries, pushed);
            assert forall|q: int| 0 <= q < p4 - pos - 1 implies #[trigger] s@.subrange(
                pos + 1,
                p4 as int,
            )[q] == entries_chars(entries@)[q] by {
                if q < p - pos - 1 {
                    assert(s@.subrange(pos + 1, p4 as int)[q] == s@.subrange(pos + 1, p as int)[q]);
                    assert(entries_chars(entries@)[q] == entries_chars(old_entries)[q]);
                } else {
                    assert(s@.subrange(pos + 1, p4 as int)[q] == s@.subrange(p as int, p4 as int)[
                        q - (p - pos - 1)
                    ]);
                    assert(entries_chars(entries@)[q] == entry_chars(pushed)[q - (p - pos - 1)]);
                }
            }
            assert(s@.subrange(pos + 1, p4 as int) =~= entries_chars(entries@));
            assert forall|t0: SnapShotTree, rest: Seq<char>|
                tree_wf(t0) && s@.skip(pos as int) == #[trigger] (tree_chars(t0) + rest) implies {
                let k2 = entries@.len() as int;
                &&& k2 <= t0.entries@.len()
                &&& entries_equiv(entries@, t0.entries@.take(k2))
                &&& s@.skip(p4 as int) == entries_chars(t0.entries@.skip(k2)) + (seq![')']
                    + rest)
            } by {
                crate::tree::lemma_entries_wf_index(t0.entries@);
                let e0 = t0.entries@[k];
                crate::tree::lemma_entries_equiv_push(old_entries, t0.entries@.take(k), pushed, e0);
                assert(t0.entries@.take(k + 1) =~= t0.entries@.take(k).push(e0));
                lemma_skip_concat(
                    s@,
                    p as int,
                    entry_chars(e0),
                    entries_chars(t0.entries@.skip(k + 1)) + (seq![')'] + rest),
                );
            }
        }
        p = p4;
    }
}

impl SnapShotTree {
    /// Reads a tree back from its canonical text. Succeeds exactly on the
    /// text of a well-formed tree, and gives back the tree the text was made
    /// from.
    pub fn decode(s: &str) -> (r: Option<SnapShotTree>)
        ensures
            match r {
                Some(t) => tree_wf(t) && s@ =~= tree_chars(t),
                None => forall|t0: SnapShotTree| tree_wf(t0) ==> s@ != tree_chars(t0),
            },
    {
        let len: usize = s.unicode_len();
        proof {
            assert forall|t0: SnapShotTree|
                tree_wf(t0) && s@ == tree_chars(t0) implies s@.skip(0) == tree_chars(t0)
                + Seq::<char>::empty() by {
                assert(s@.skip(0) =~= s@);
                assert(tree_chars(t0) + Seq::<char>::empty() =~= tree_chars(t0));
            }
        }
        match parse_tree_at(s, 0, len) {
            Some((t, end)) => {
                if end == len {
                    proof {
                        assert(s@.subrange(0, len as int) =~= s@);
                    }
                    Some(t)
                } else {
                    proof {
                        assert forall|t0: SnapShotTree| tree_wf(t0) implies s@ != tree_chars(
                            t0,
                        ) by {
                            if s@ == tree_chars(t0) {
                                assert(s@.skip(0) == tree_chars(t0) + Seq::<char>::empty());
                            }
                        }
                    }
                    None
                }
            },
            None => {
                proof {
                    assert forall|t0: SnapShotTree| tree_wf(t0) implies s@ != tree_chars(t0) by {
                        if s@ == tree_chars(t0) {
                            assert(s@.skip(0) == tree_chars(t0) + Seq::<char>::empty());
                        }
                    }
                }
                None
            },
        }
    }
}

/// Relies on String::from_utf8: it succeeds exactly on valid UTF-8 input and
/// decodes the bytes to the characters they encode.
#[verifier::external_body]
pub(crate) fn bytes_to_string(bytes: Vec<u8>) -> (r: Option<String>)
    ensures
        match r {
            Some(s) => vstd::utf8::valid_utf8(bytes@) && s@ == vstd::utf8::decode_utf8(bytes@),
            None => !vstd::utf8::valid_utf8(bytes@),
        },
{
    match String::from_utf8(bytes) {
        Ok(s) => Some(s),
        Err(_) => None,
    }
}

impl SnapShotTree {
    /// The identity of this tree: the digest of its canonical text's bytes.
    pub fn object_id(&self) -> (r: ObjectID)
        ensures
            r@ == crate::object_id::digest_of(vstd::utf8::encode_utf8(tree_chars(*self))),
            r.well_formed(),
    {
        let text = self.encode();
        let bytes = text.as_str().as_bytes_vec();
        ObjectID::of(bytes.as_slice())
    }
}

} // verus!
