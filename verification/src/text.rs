//! Text-level building blocks shared by the object identifiers, the canonical
//! object encoding and the difference renderer: lexicographic order on
//! character sequences, lowercase hexadecimal, and decimal numerals.

use vstd::prelude::*;

verus! {

/// Strict lexicographic order on character sequences, comparing scalar values
/// character by character; a proper prefix comes before its extensions.
pub open spec fn lex_lt(a: Seq<char>, b: Seq<char>) -> bool
    decreases a.len(),
{
    if b.len() == 0 {
        false
    } else if a.len() == 0 {
        true
    } else if (a[0] as u32) < (b[0] as u32) {
        true
    } else if a[0] == b[0] {
        lex_lt(a.drop_first(), b.drop_first())
    } else {
        false
    }
}

/// Of two distinct character sequences, exactly one comes first.
pub proof fn lemma_lex_trichotomy(a: Seq<char>, b: Seq<char>)
    ensures
        lex_lt(a, b) || lex_lt(b, a) || a =~= b,
        lex_lt(a, b) ==> !lex_lt(b, a) && !(a =~= b),
        lex_lt(b, a) ==> !lex_lt(a, b) && !(a =~= b),
    decreases a.len(),
{
    if a.len() == 0 || b.len() == 0 {
    } else {
        vstd::utf8::char_u32_cast(a[0], a[0] as u32);
        vstd::utf8::char_u32_cast(b[0], b[0] as u32);
        lemma_lex_trichotomy(a.drop_first(), b.drop_first());
        if a[0] == b[0] {
            if a.drop_first() =~= b.drop_first() {
                assert forall|i: int| 0 <= i < a.len() implies a[i] == b[i] by {
                    if i > 0 {
                        assert(a.drop_first()[i - 1] == b.drop_first()[i - 1]);
                    }
                }
                assert(a =~= b);
            }
            assert(a =~= b ==> a.drop_first() =~= b.drop_first());
        }
    }
}

/// The lexicographic order is transitive.
pub proof fn lemma_lex_transitive(a: Seq<char>, b: Seq<char>, c: Seq<char>)
    requires
        lex_lt(a, b),
        lex_lt(b, c),
    ensures
        lex_lt(a, c),
    decreases a.len(),
{
    if a.len() == 0 {
    } else if b.len() == 0 {
    } else if c.len() == 0 {
    } else {
        if a[0] == b[0] && b[0] == c[0] {
            lemma_lex_transitive(a.drop_first(), b.drop_first(), c.drop_first());
        }
    }
}

/// Compares two strings in the order of `lex_lt`: negative when `a` comes
/// first, zero when they are equal, positive when `b` comes first.
pub fn str_compare(a: &str, b: &str) -> (r: i8)
    ensures
        r == -1i8 ==> lex_lt(a@, b@),
        r == 0i8 ==> a@ =~= b@,
        r == 1i8 ==> lex_lt(b@, a@),
        r == -1i8 || r == 0i8 || r == 1i8,
{
    let a_len: usize = a.unicode_len();
    let b_len: usize = b.unicode_len();
    let mut i: usize = 0;
    while i < a_len && i < b_len
        invariant
            i <= a_len,
            i <= b_len,
            a_len == a@.len(),
            b_len == b@.len(),
            forall|j: int| 0 <= j < i ==> a@[j] == b@[j],
        decreases a_len - i,
    {
        let ca: char = a.get_char(i);
        let cb: char = b.get_char(i);
        if (ca as u32) < (cb as u32) {
            proof {
                lemma_lex_common_prefix_lt(a@, b@, i as int);
            }
            return -1;
        }
        if (ca as u32) > (cb as u32) {
            proof {
                lemma_lex_common_prefix_lt(b@, a@, i as int);
            }
            return 1;
        }
        proof {
            vstd::utf8::char_u32_cast(ca, ca as u32);
            vstd::utf8::char_u32_cast(cb, cb as u32);
        }
        i = i + 1;
    }
    if a_len < b_len {
        proof {
            lemma_lex_prefix_lt(a@, b@);
        }
        -1
    } else if a_len > b_len {
        proof {
            lemma_lex_prefix_lt(b@, a@);
        }
        1
    } else {
        proof {
            assert(a@ =~= b@);
        }
        0
    }
}

/// If `a` and `b` agree on the first `i` characters, both extend past `i`, and
/// `a` has the smaller character there, then `a` comes first.
pub proof fn lemma_lex_common_prefix_lt(a: Seq<char>, b: Seq<char>, i: int)
    requires
        0 <= i < a.len(),
        i < b.len(),
        forall|j: int| 0 <= j < i ==> a[j] == b[j],
        (a[i] as u32) < (b[i] as u32),
    ensures
        lex_lt(a, b),
    decreases i,
{
    if i == 0 {
    } else {
        lemma_lex_common_prefix_lt(a.drop_first(), b.drop_first(), i - 1);
    }
}

/// A proper prefix comes before the sequence it is a prefix of.
pub proof fn lemma_lex_prefix_lt(a: Seq<char>, b: Seq<char>)
    requires
        a.len() < b.len(),
        forall|j: int| 0 <= j < a.len() ==> a[j] == b[j],
    ensures
        lex_lt(a, b),
    decreases a.len(),
{
    if a.len() == 0 {
    } else {
        lemma_lex_prefix_lt(a.drop_first(), b.drop_first());
    }
}

/// The lowercase hexadecimal digit character for a value below sixteen.
pub open spec fn hex_digit(n: u8) -> char {
    if n < 10 {
        ((48 + n) as u8) as char
    } else {
        ((87 + n) as u8) as char
    }
}

/// The lowercase hexadecimal spelling of a byte sequence, two digits per byte,
/// high nibble first.
pub open spec fn hex_of(bytes: Seq<u8>) -> Seq<char> {
    Seq::new(
        bytes.len() * 2,
        |i: int|
            if i % 2 == 0 {
                hex_digit((bytes[i / 2] / 16) as u8)
            } else {
                hex_digit((bytes[i / 2] % 16) as u8)
            },
    )
}

/// Whether `c` spells a hexadecimal digit, in either letter case.
pub open spec fn is_hex_char(c: char) -> bool {
    (48 <= c as u32 && c as u32 <= 57) || (97 <= c as u32 && c as u32 <= 102) || (65 <= c as u32
        && c as u32 <= 70)
}

/// The value of a hexadecimal digit character; zero on anything else.
pub open spec fn hex_val(c: char) -> u8 {
    if 48 <= c as u32 && c as u32 <= 57 {
        (c as u32 - 48) as u8
    } else if 97 <= c as u32 && c as u32 <= 102 {
        (c as u32 - 87) as u8
    } else if 65 <= c as u32 && c as u32 <= 70 {
        (c as u32 - 55) as u8
    } else {
        0
    }
}

/// The bytes spelled by a sequence of hexadecimal digit characters, read in
/// pairs; meaningful when the length is even and every character is a digit.
pub open spec fn bytes_of_hex(s: Seq<char>) -> Seq<u8> {
    Seq::new(
        s.len() / 2,
        |i: int| ((hex_val(s[2 * i]) * 16 + hex_val(s[2 * i + 1])) as u8),
    )
}

/// Reading back the hexadecimal spelling of bytes gives the bytes.
pub proof fn lemma_hex_round_trip(bytes: Seq<u8>)
    ensures
        bytes_of_hex(hex_of(bytes)) =~= bytes,
        forall|i: int| 0 <= i < hex_of(bytes).len() ==> is_hex_char(#[trigger] hex_of(bytes)[i]),
{
    assert forall|i: int| 0 <= i < hex_of(bytes).len() implies is_hex_char(
        #[trigger] hex_of(bytes)[i],
    ) by {
        let b = bytes[i / 2];
        lemma_hex_digit_val((b / 16) as u8);
        lemma_hex_digit_val((b % 16) as u8);
    }
    assert forall|i: int| 0 <= i < bytes.len() implies bytes_of_hex(hex_of(bytes))[i] == bytes[i] by {
        let b = bytes[i];
        lemma_hex_digit_val((b / 16) as u8);
        lemma_hex_digit_val((b % 16) as u8);
        assert(hex_of(bytes)[2 * i] == hex_digit((b / 16) as u8));
        assert(hex_of(bytes)[2 * i + 1] == hex_digit((b % 16) as u8));
    }
}

/// Whether `c` spells a lowercase hexadecimal digit.
pub open spec fn is_lower_hex_char(c: char) -> bool {
    (48 <= c as u32 && c as u32 <= 57) || (97 <= c as u32 && c as u32 <= 102)
}

/// A lowercase digit character is spelled by its own value.
pub proof fn lemma_lower_hex_digit(c: char)
    requires
        is_lower_hex_char(c),
    ensures
        hex_val(c) < 16,
        hex_digit(hex_val(c)) == c,
{
    vstd::utf8::char_u32_cast(c, c as u32);
}

/// The spelling of bytes uses lowercase digits only, and spelling the bytes
/// read from lowercase digits gives back the text.
pub proof fn lemma_hex_lower_inverse(s: Seq<char>)
    requires
        s.len() % 2 == 0,
        forall|i: int| 0 <= i < s.len() ==> is_lower_hex_char(#[trigger] s[i]),
    ensures
        hex_of(bytes_of_hex(s)) =~= s,
{
    assert forall|i: int| 0 <= i < s.len() implies hex_of(bytes_of_hex(s))[i] == s[i] by {
        let j = i / 2;
        let a = hex_val(s[2 * j]);
        let b = hex_val(s[2 * j + 1]);
        lemma_lower_hex_digit(s[2 * j]);
        lemma_lower_hex_digit(s[2 * j + 1]);
        assert(bytes_of_hex(s)[j] == (a * 16 + b) as u8);
        assert((a * 16 + b) / 16 == a as int);
        assert((a * 16 + b) % 16 == b as int);
        if i % 2 == 0 {
            assert(i == 2 * j);
        } else {
            assert(i == 2 * j + 1);
        }
    }
}

/// The value of one lowercase hexadecimal digit character, if it is one.
pub fn lower_hex_char_value(c: char) -> (r: Option<u8>)
    ensures
        match r {
            Some(v) => is_lower_hex_char(c) && v == hex_val(c),
            None => !is_lower_hex_char(c),
        },
{
    let u = c as u32;
    if 48 <= u && u <= 57 {
        Some((u - 48) as u8)
    } else if 97 <= u && u <= 102 {
        Some((u - 87) as u8)
    } else {
        None
    }
}

/// Reads lowercase hexadecimal text back into bytes. Succeeds exactly when
/// the text has even length and every character is a lowercase digit.
pub fn parse_hex_lower(s: &str) -> (r: Option<Vec<u8>>)
    ensures
        match r {
            Some(v) => s@.len() % 2 == 0 && (forall|i: int|
                0 <= i < s@.len() ==> is_lower_hex_char(#[trigger] s@[i])) && v@ =~= bytes_of_hex(
                s@,
            ),
            None => s@.len() % 2 != 0 || exists|i: int|
                0 <= i < s@.len() && !is_lower_hex_char(#[trigger] s@[i]),
        },
{
    let len: usize = s.unicode_len();
    if len % 2 != 0 {
        return None;
    }
    let mut out: Vec<u8> = Vec::new();
    let mut i: usize = 0;
    while i < len
        invariant
            len == s@.len(),
            len % 2 == 0,
            i % 2 == 0,
            i <= len,
            forall|j: int| 0 <= j < i ==> is_lower_hex_char(#[trigger] s@[j]),
            out@ =~= bytes_of_hex(s@.subrange(0, i as int)),
        decreases len - i,
    {
        let hi = s.get_char(i);
        let lo = s.get_char(i + 1);
        let hv = match lower_hex_char_value(hi) {
            Some(v) => v,
            None => {
                return None;
            },
        };
        let lv = match lower_hex_char_value(lo) {
            Some(v) => v,
            None => {
                return None;
            },
        };
        out.push(hv * 16 + lv);
        proof {
            assert(out@ =~= bytes_of_hex(s@.subrange(0, i + 2)));
        }
        i = i + 2;
    }
    proof {
        assert(s@.subrange(0, len as int) =~= s@);
    }
    Some(out)
}

/// A digit character spells the value it was made from.
pub proof fn lemma_hex_digit_val(n: u8)
    requires
        n < 16,
    ensures
        is_hex_char(hex_digit(n)),
        is_lower_hex_char(hex_digit(n)),
        hex_val(hex_digit(n)) == n,
{
    if n < 10 {
        assert(hex_digit(n) as u32 == 48 + n);
    } else {
        assert(hex_digit(n) as u32 == 87 + n);
    }
}

/// The single-character string that spells a hexadecimal digit.
fn hex_digit_str(n: u8) -> (r: &'static str)
    requires
        n < 16,
    ensures
        r@ =~= seq![hex_digit(n)],
{
    proof {
        reveal_strlit("0");
        reveal_strlit("1");
        reveal_strlit("2");
        reveal_strlit("3");
        reveal_strlit("4");
        reveal_strlit("5");
        reveal_strlit("6");
        reveal_strlit("7");
        reveal_strlit("8");
        reveal_strlit("9");
        reveal_strlit("a");
        reveal_strlit("b");
        reveal_strlit("c");
        reveal_strlit("d");
        reveal_strlit("e");
        reveal_strlit("f");
    }
    match n {
        0 => "0",
        1 => "1",
        2 => "2",
        3 => "3",
        4 => "4",
        5 => "5",
        6 => "6",
        7 => "7",
        8 => "8",
        9 => "9",
        10 => "a",
        11 => "b",
        12 => "c",
        13 => "d",
        14 => "e",
        _ => "f",
    }
}

/// Spells a byte slice as lowercase hexadecimal text.
pub fn hex_string(bytes: &[u8]) -> (s: String)
    ensures
        s@ =~= hex_of(bytes@),
{
    let mut out = String::new();
    let mut i: usize = 0;
    while i < bytes.len()
        invariant
            i <= bytes@.len(),
            out@ =~= hex_of(bytes@).subrange(0, 2 * i as int),
        decreases bytes@.len() - i,
    {
        let b = bytes[i];
        out.append(hex_digit_str(b / 16));
        out.append(hex_digit_str(b % 16));
        proof {
            assert(out@ =~= hex_of(bytes@).subrange(0, 2 * (i + 1) as int));
        }
        i = i + 1;
    }
    proof {
        assert(out@ =~= hex_of(bytes@));
    }
    out
}

/// Reads hexadecimal text back into bytes. Returns the bytes exactly when the
/// text has even length and every character is a hexadecimal digit, in either
/// letter case; otherwise returns nothing.
pub fn parse_hex(s: &str) -> (r: Option<Vec<u8>>)
    ensures
        match r {
            Some(v) => s@.len() % 2 == 0 && (forall|i: int|
                0 <= i < s@.len() ==> is_hex_char(#[trigger] s@[i])) && v@ =~= bytes_of_hex(s@),
            None => s@.len() % 2 != 0 || exists|i: int| 0 <= i < s@.len() && !is_hex_char(#[trigger] s@[i]),
        },
{
    let len: usize = s.unicode_len();
    if len % 2 != 0 {
        return None;
    }
    let mut out: Vec<u8> = Vec::new();
    let mut i: usize = 0;
    while i < len
        invariant
            len == s@.len(),
            len % 2 == 0,
            i % 2 == 0,
            i <= len,
            forall|j: int| 0 <= j < i ==> is_hex_char(#[trigger] s@[j]),
            out@ =~= bytes_of_hex(s@.subrange(0, i as int)),
        decreases len - i,
    {
        let hi = s.get_char(i);
        let lo = s.get_char(i + 1);
        let hv = match hex_char_value(hi) {
            Some(v) => v,
            None => {
                return None;
            },
        };
        let lv = match hex_char_value(lo) {
            Some(v) => v,
            None => {
                return None;
            },
        };
        out.push(hv * 16 + lv);
        proof {
            assert(out@ =~= bytes_of_hex(s@.subrange(0, i + 2)));
        }
        i = i + 2;
    }
    proof {
        assert(s@.subrange(0, len as int) =~= s@);
    }
    Some(out)
}

/// The value of one hexadecimal digit character, if it is one.
pub fn hex_char_value(c: char) -> (r: Option<u8>)
    ensures
        match r {
            Some(v) => is_hex_char(c) && v == hex_val(c),
            None => !is_hex_char(c),
        },
{
    let u = c as u32;
    if 48 <= u && u <= 57 {
        Some((u - 48) as u8)
    } else if 97 <= u && u <= 102 {
        Some((u - 87) as u8)
    } else if 65 <= u && u <= 70 {
        Some((u - 55) as u8)
    } else {
        None
    }
}

/// Relies on String::push: appends exactly the given character to the end of
/// the string.
#[verifier::external_body]
pub(crate) fn push_char(s: &mut String, c: char)
    ensures
        final(s)@ == old(s)@.push(c),
{
    s.push(c);
}

} // verus!
