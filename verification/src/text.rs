//! Byte-wise total order on strings and the small string utilities the
//! rest of the crate builds on.
//!
//! Strings are ordered the way `String`'s `Ord` orders them: by their UTF-8
//! bytes, lexicographically. The order is stated over the encoded bytes
//! (`encode_utf8` of a string's `char` view) and proved to be a strict total
//! order.
use vstd::prelude::*;
use vstd::utf8::*;

verus! {

/// Outcome of a three-way comparison.
#[derive(Debug, Clone, Copy, PartialEq, Eq)]
pub enum Compared {
    Less,
    Equal,
    Greater,
}

/// Lexicographic "less than" on byte sequences, looking from position `i`
/// onwards (positions before `i` are taken as equal).
pub open spec fn lex_lt_from(a: Seq<u8>, b: Seq<u8>, i: nat) -> bool
    decreases a.len() - i,
{
    if i >= a.len() {
        i < b.len()
    } else if i >= b.len() {
        false
    } else if a[i as int] != b[i as int] {
        a[i as int] < b[i as int]
    } else {
        lex_lt_from(a, b, i + 1)
    }
}

/// Lexicographic strict order on byte sequences.
pub open spec fn bytes_lt(a: Seq<u8>, b: Seq<u8>) -> bool {
    lex_lt_from(a, b, 0)
}

/// The UTF-8 bytes of a string's `char` view.
pub open spec fn sbytes(s: Seq<char>) -> Seq<u8> {
    encode_utf8(s)
}

/// Strict order on strings: byte-wise lexicographic over UTF-8.
pub open spec fn str_lt(a: Seq<char>, b: Seq<char>) -> bool {
    bytes_lt(sbytes(a), sbytes(b))
}

pub open spec fn str_le(a: Seq<char>, b: Seq<char>) -> bool {
    str_lt(a, b) || a == b
}

/// The outcome a three-way comparison of two strings must have.
pub open spec fn str_order(a: Seq<char>, b: Seq<char>) -> Compared {
    if str_lt(a, b) {
        Compared::Less
    } else if a == b {
        Compared::Equal
    } else {
        Compared::Greater
    }
}

proof fn lemma_lex_irrefl(a: Seq<u8>, i: nat)
    ensures
        !lex_lt_from(a, a, i),
    decreases a.len() - i,
{
    if i < a.len() {
        lemma_lex_irrefl(a, i + 1);
    }
}

proof fn lemma_lex_trans(a: Seq<u8>, b: Seq<u8>, c: Seq<u8>, i: nat)
    requires
        lex_lt_from(a, b, i),
        lex_lt_from(b, c, i),
    ensures
        lex_lt_from(a, c, i),
    decreases a.len() - i,
{
    if i < a.len() && i < b.len() && i < c.len() && a[i as int] == b[i as int] && b[i as int]
        == c[i as int] {
        lemma_lex_trans(a, b, c, i + 1);
    }
}

proof fn lemma_lex_total(a: Seq<u8>, b: Seq<u8>, i: nat)
    requires
        i <= a.len(),
        i <= b.len(),
        forall|j: int| 0 <= j < i ==> a[j] == b[j],
    ensures
        a == b || lex_lt_from(a, b, i) || lex_lt_from(b, a, i),
    decreases a.len() - i,
{
    if i < a.len() && i < b.len() && a[i as int] == b[i as int] {
        lemma_lex_total(a, b, i + 1);
    } else if i == a.len() && i == b.len() {
        assert(a =~= b);
    }
}

/// The byte order is irreflexive.
pub broadcast proof fn lemma_bytes_lt_irrefl(a: Seq<u8>)
    ensures
        !#[trigger] bytes_lt(a, a),
{
    lemma_lex_irrefl(a, 0);
}

/// The byte order is transitive.
pub broadcast proof fn lemma_bytes_lt_trans(a: Seq<u8>, b: Seq<u8>, c: Seq<u8>)
    requires
        #[trigger] bytes_lt(a, b),
        #[trigger] bytes_lt(b, c),
    ensures
        bytes_lt(a, c),
{
    lemma_lex_trans(a, b, c, 0);
}

/// The byte order is total.
pub proof fn lemma_bytes_lt_total(a: Seq<u8>, b: Seq<u8>)
    ensures
        a == b || bytes_lt(a, b) || bytes_lt(b, a),
{
    lemma_lex_total(a, b, 0);
}

/// Distinct strings have distinct encodings.
pub proof fn lemma_sbytes_injective(a: Seq<char>, b: Seq<char>)
    requires
        sbytes(a) == sbytes(b),
    ensures
        a == b,
{
    encode_utf8_decode_utf8(a);
    encode_utf8_decode_utf8(b);
}

/// The bytes of joined strings are the joined bytes.
pub proof fn lemma_sbytes_concat(a: Seq<char>, b: Seq<char>)
    ensures
        sbytes(a + b) == sbytes(a) + sbytes(b),
    decreases a.len(),
{
    if a.len() == 0 {
        assert(a + b =~= b);
        assert(sbytes(a) =~= Seq::<u8>::empty());
        assert(sbytes(a) + sbytes(b) =~= sbytes(b));
    } else {
        assert((a + b).drop_first() =~= a.drop_first() + b);
        assert((a + b)[0] == a[0]);
        lemma_sbytes_concat(a.drop_first(), b);
        let e = encode_scalar(a[0] as u32);
        assert(sbytes(a + b) == e + sbytes((a + b).drop_first()));
        assert(sbytes(a) == e + sbytes(a.drop_first()));
        assert(e + (sbytes(a.drop_first()) + sbytes(b)) =~= (e + sbytes(a.drop_first())) + sbytes(b));
    }
}

/// The string order is irreflexive.
pub broadcast proof fn lemma_str_lt_irrefl(a: Seq<char>)
    ensures
        !#[trigger] str_lt(a, a),
{
    lemma_lex_irrefl(sbytes(a), 0);
}

/// The string order is transitive.
pub broadcast proof fn lemma_str_lt_trans(a: Seq<char>, b: Seq<char>, c: Seq<char>)
    requires
        #[trigger] str_lt(a, b),
        #[trigger] str_lt(b, c),
    ensures
        str_lt(a, c),
{
    lemma_lex_trans(sbytes(a), sbytes(b), sbytes(c), 0);
}

/// The string order is total.
pub broadcast proof fn lemma_str_lt_total(a: Seq<char>, b: Seq<char>)
    ensures
        #![trigger str_lt(a, b)]
        #![trigger str_lt(b, a)]
        a == b || str_lt(a, b) || str_lt(b, a),
{
    lemma_lex_total(sbytes(a), sbytes(b), 0);
    if sbytes(a) == sbytes(b) {
        lemma_sbytes_injective(a, b);
    }
}

pub broadcast group group_str_order {
    lemma_str_lt_irrefl,
    lemma_str_lt_trans,
    lemma_str_lt_total,
}

/// Three-way comparison of two byte slices, lexicographically.
pub fn bytes_compare(a: &[u8], b: &[u8]) -> (c: Compared)
    ensures
        c == Compared::Less <==> bytes_lt(a@, b@),
        c == Compared::Equal <==> a@ == b@,
        c == Compared::Greater <==> bytes_lt(b@, a@),
{
    proof {
        lemma_lex_irrefl(a@, 0);
        lemma_lex_total(a@, b@, 0);
    }
    let mut i: usize = 0;
    while i < a.len() && i < b.len()
        invariant
            i <= a.len(),
            i <= b.len(),
            forall|j: int| 0 <= j < i ==> a@[j] == b@[j],
            lex_lt_from(a@, b@, 0) == lex_lt_from(a@, b@, i as nat),
            lex_lt_from(b@, a@, 0) == lex_lt_from(b@, a@, i as nat),
        decreases a.len() - i,
    {
        if a[i] != b[i] {
            if a[i] < b[i] {
                assert(a@ != b@);
                proof {
                    lemma_lex_irrefl(b@, 0);
                }
                return Compared::Less;
            } else {
                assert(a@ != b@);
                return Compared::Greater;
            }
        }
        i = i + 1;
    }
    if a.len() == b.len() {
        assert(a@ =~= b@);
        Compared::Equal
    } else if i == a.len() {
        assert(a@ != b@);
        Compared::Less
    } else {
        assert(a@ != b@);
        Compared::Greater
    }
}

/// Three-way comparison of two strings in `String`'s order.
pub fn str_compare(a: &str, b: &str) -> (c: Compared)
    ensures
        c == str_order(a@, b@),
{
    let r = bytes_compare(a.as_bytes(), b.as_bytes());
    proof {
        lemma_lex_irrefl(sbytes(a@), 0);
        if sbytes(a@) == sbytes(b@) {
            lemma_sbytes_injective(a@, b@);
        }
        if bytes_lt(sbytes(a@), sbytes(b@)) {
            assert(sbytes(a@) != sbytes(b@)) by {
                lemma_lex_irrefl(sbytes(a@), 0);
            }
        }
    }
    r
}

/// Whether two strings are equal.
pub fn str_eq(a: &str, b: &str) -> (r: bool)
    ensures
        r == (a@ == b@),
{
    let c = str_compare(a, b);
    proof {
        lemma_lex_irrefl(sbytes(a@), 0);
    }
    match c {
        Compared::Equal => true,
        _ => false,
    }
}

/// Whether `a` sorts strictly before `b`.
pub fn str_less(a: &str, b: &str) -> (r: bool)
    ensures
        r == str_lt(a@, b@),
{
    let c = str_compare(a, b);
    proof {
        lemma_lex_irrefl(sbytes(a@), 0);
    }
    match c {
        Compared::Less => true,
        _ => false,
    }
}

/// A string holding the given UTF-8 bytes, or `None` when they are not
/// valid UTF-8.
///
/// Trusted: calls `String::from_utf8`, whose documentation says that it
/// fails exactly on invalid UTF-8 and otherwise holds the given bytes.
#[verifier::external_body]
pub(crate) fn string_from_utf8(bytes: Vec<u8>) -> (r: Option<String>)
    ensures
        r is Some <==> valid_utf8(bytes@),
        r matches Some(s) ==> sbytes(s@) == bytes@,
{
    String::from_utf8(bytes).ok()
}

/// An owned copy of a string slice.
pub fn owned(s: &str) -> (r: String)
    ensures
        r@ == s@,
{
    s.to_owned()
}

/// A copy of a string.
pub fn copy_string(s: &String) -> (r: String)
    ensures
        r@ == s@,
{
    s.clone()
}

/// A string holding the given ASCII bytes.
pub fn ascii_string(bytes: Vec<u8>) -> (r: String)
    requires
        forall|i: int| 0 <= i < bytes@.len() ==> #[trigger] bytes@[i] < 128,
    ensures
        sbytes(r@) == bytes@,
{
    proof {
        let b = bytes@;
        assert(partial_valid_utf8(b, 0)) by {
            assert(b.subrange(0, 0) =~= Seq::<u8>::empty());
        }
        assert forall|i: int| 0 <= 0 <= i < b.len() <= b.len() implies #[trigger] is_leading_byte_width_1(
            b[i],
        ) by {
            assert(b[i] < 128);
        }
        partial_valid_utf8_extend_ascii_block(b, 0, b.len() as int);
        assert(b.subrange(0, b.len() as int) =~= b);
    }
    match string_from_utf8(bytes) {
        Some(s) => s,
        None => String::new(),
    }
}

/// Texts joined by a separator.
pub open spec fn joined(p: Seq<Seq<char>>, sep: Seq<char>) -> Seq<char>
    decreases p.len(),
{
    if p.len() == 0 {
        Seq::empty()
    } else if p.len() == 1 {
        p[0]
    } else {
        joined(p.drop_last(), sep) + sep + p.last()
    }
}

/// Joining one more text.
pub proof fn lemma_joined_push(p: Seq<Seq<char>>, sep: Seq<char>, x: Seq<char>)
    ensures
        joined(p.push(x), sep) == if p.len() == 0 {
            x
        } else {
            joined(p, sep) + sep + x
        },
{
    assert(p.push(x).drop_last() =~= p);
    if p.len() == 0 {
        assert(p.push(x) =~= seq![x]);
    }
}

} // verus!
