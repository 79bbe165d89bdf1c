//! Content-addressed state identity: a state's id is SHA-256 over its
//! canonical bytes, format version tag included, written as lowercase hex.
use vstd::prelude::*;
use sha2::{Digest, Sha256};
use crate::text::{sbytes, ascii_string};
use crate::canonical::{canon, canonical_bytes};
use crate::model::State;

verus! {

/// The SHA-256 digest of a byte string.
pub uninterp spec fn sha256_spec(data: Seq<u8>) -> Seq<u8>;

/// SHA-256 of the bytes.
///
/// Trusted: calls `sha2::Sha256::digest`. The contract claims only that the
/// 32-byte result is the digest of the input, named by `sha256_spec`.
#[verifier::external_body]
pub(crate) fn sha256(data: &[u8]) -> (r: [u8; 32])
    ensures
        r@ == sha256_spec(data@),
{
    Sha256::digest(data).into()
}

/// The ASCII code of a hex digit (lowercase).
pub open spec fn hex_digit(n: u8) -> u8 {
    if n < 10 {
        (48 + n) as u8
    } else {
        (87 + n) as u8
    }
}

/// A lowercase hex digit character code.
pub open spec fn is_hex_char(c: u8) -> bool {
    (48 <= c <= 57) || (97 <= c <= 102)
}

/// The value of a lowercase hex digit.
pub open spec fn hex_value(c: u8) -> u8 {
    if c <= 57 {
        (c - 48) as u8
    } else {
        (c - 87) as u8
    }
}

/// The lowercase hex text (as ASCII codes) of bytes: two digits per byte,
/// high nibble first.
pub open spec fn hex_bytes(b: Seq<u8>) -> Seq<u8> {
    Seq::new(
        2 * b.len(),
        |i: int|
            if i % 2 == 0 {
                hex_digit(b[i / 2] / 16)
            } else {
                hex_digit(b[i / 2] % 16)
            },
    )
}

/// The text of a 32-byte identity: 64 lowercase hex digits.
pub open spec fn is_hex_id(s: Seq<u8>) -> bool {
    s.len() == 64 && forall|i: int| 0 <= i < s.len() ==> is_hex_char(#[trigger] s[i])
}

proof fn lemma_nibble(x: u8)
    ensures
        is_hex_char(hex_digit(x / 16)),
        is_hex_char(hex_digit(x % 16)),
        hex_value(hex_digit(x / 16)) == x / 16,
        hex_value(hex_digit(x % 16)) == x % 16,
        (x / 16) * 16 + x % 16 == x,
{
}

/// Hex text determines the bytes it was made from.
pub proof fn lemma_hex_injective(a: Seq<u8>, b: Seq<u8>)
    requires
        hex_bytes(a) == hex_bytes(b),
    ensures
        a == b,
{
    assert(a.len() == b.len()) by {
        assert(hex_bytes(a).len() == 2 * a.len());
    }
    assert forall|i: int| 0 <= i < a.len() implies a[i] == b[i] by {
        assert(hex_bytes(a)[2 * i] == hex_bytes(b)[2 * i]);
        assert(hex_bytes(a)[2 * i + 1] == hex_bytes(b)[2 * i + 1]);
        assert((2 * i) / 2 == i && (2 * i) % 2 == 0);
        assert((2 * i + 1) / 2 == i && (2 * i + 1) % 2 == 1);
        lemma_nibble(a[i]);
        lemma_nibble(b[i]);
        assert(hex_bytes(a)[2 * i] == hex_digit(a[i] / 16));
        assert(hex_bytes(b)[2 * i] == hex_digit(b[i] / 16));
        assert(hex_bytes(a)[2 * i + 1] == hex_digit(a[i] % 16));
        assert(hex_bytes(b)[2 * i + 1] == hex_digit(b[i] % 16));
        assert(a[i] / 16 == b[i] / 16);
        assert(a[i] % 16 == b[i] % 16);
    }
    assert(a =~= b);
}

/// The hex text of a 32-byte identity is well formed, and it is the text of
/// no other byte string: parsing it gives the identity back.
pub proof fn lemma_hex_round_trip(a: Seq<u8>)
    requires
        a.len() == 32,
    ensures
        is_hex_id(hex_bytes(a)),
        forall|b: Seq<u8>| hex_bytes(b) == hex_bytes(a) ==> b == a,
{
    assert forall|i: int| 0 <= i < hex_bytes(a).len() implies is_hex_char(#[trigger] hex_bytes(a)[i]) by {
        lemma_nibble(a[i / 2]);
    }
    assert forall|b: Seq<u8>| hex_bytes(b) == hex_bytes(a) implies b == a by {
        lemma_hex_injective(b, a);
    }
}

/// The lowercase hex text of bytes.
pub(crate) fn to_hex(bytes: &[u8]) -> (r: String)
    requires
        bytes@.len() <= 0x1000_0000,
    ensures
        sbytes(r@) == hex_bytes(bytes@),
{
    let mut out: Vec<u8> = Vec::new();
    let mut i: usize = 0;
    while i < bytes.len()
        invariant
            i <= bytes@.len(),
            bytes@.len() <= 0x1000_0000,
            out@.len() == 2 * i,
            forall|j: int| 0 <= j < 2 * i ==> out@[j] == #[trigger] hex_bytes(bytes@)[j],
        decreases bytes@.len() - i,
    {
        let b = bytes[i];
        let hi = b / 16;
        let lo = b % 16;
        let ch = if hi < 10 { 48 + hi } else { 87 + hi };
        let cl = if lo < 10 { 48 + lo } else { 87 + lo };
        out.push(ch);
        out.push(cl);
        proof {
            assert forall|j: int| 0 <= j < 2 * (i + 1) implies out@[j] == #[trigger] hex_bytes(bytes@)[j] by {
                if j >= 2 * i {
                    assert(j / 2 == i);
                }
            }
        }
        i = i + 1;
    }
    proof {
        assert(out@ =~= hex_bytes(bytes@));
        assert forall|j: int| 0 <= j < out@.len() implies #[trigger] out@[j] < 128 by {
            lemma_nibble(bytes@[j / 2]);
        }
    }
    ascii_string(out)
}

fn hex_val(c: u8) -> (r: Option<u8>)
    ensures
        r is Some <==> is_hex_char(c),
        r matches Some(v) ==> v == hex_value(c) && v < 16 && hex_digit(v) == c,
{
    if 48 <= c && c <= 57 {
        Some(c - 48)
    } else if 97 <= c && c <= 102 {
        Some(c - 87)
    } else {
        None
    }
}

fn hex_to_32(hex: &str) -> (r: Option<[u8; 32]>)
    ensures
        r is Some <==> is_hex_id(sbytes(hex@)),
        r matches Some(a) ==> hex_bytes(a@) == sbytes(hex@),
{
    hex_bytes_to_32(hex.as_bytes())
}

/// Decode 64 lowercase hex digits (as ASCII codes) into 32 bytes.
pub(crate) fn hex_bytes_to_32(b: &[u8]) -> (r: Option<[u8; 32]>)
    ensures
        r is Some <==> is_hex_id(b@),
        r matches Some(a) ==> hex_bytes(a@) == b@,
{
    if b.len() != 64 {
        return None;
    }
    let mut out: [u8; 32] = [0u8; 32];
    let mut i: usize = 0;
    while i < 32
        invariant
            b@.len() == 64,
            i <= 32,
            out@.len() == 32,
            forall|j: int| 0 <= j < 2 * i ==> is_hex_char(#[trigger] b@[j]),
            forall|j: int| 0 <= j < 2 * i ==> hex_bytes(out@)[j] == #[trigger] b@[j],
        decreases 32 - i,
    {
        let hi = match hex_val(b[2 * i]) {
            Some(v) => v,
            None => {
                return None;
            },
        };
        let lo = match hex_val(b[2 * i + 1]) {
            Some(v) => v,
            None => {
                return None;
            },
        };
        let v: u8 = hi * 16 + lo;
        assert(v / 16 == hi && v % 16 == lo) by (nonlinear_arith)
            requires
                v == hi * 16 + lo,
                hi < 16,
                lo < 16,
        ;
        let ghost old_out = out@;
        out[i] = v;
        proof {
            assert forall|j: int| 0 <= j < 2 * (i + 1) implies hex_bytes(out@)[j] == #[trigger] b@[j] by {
                if j < 2 * i {
                    assert(out@[j / 2] == old_out[j / 2]);
                    assert(hex_bytes(old_out)[j] == b@[j]);
                } else {
                    assert(j / 2 == i);
                }
            }
        }
        i = i + 1;
    }
    proof {
        assert(hex_bytes(out@) =~= b@);
    }
    Some(out)
}

/// A stable, deterministic, content-derived state identifier.
#[derive(Debug, Clone, Copy, PartialEq, Eq, PartialOrd, Ord, Hash)]
pub struct StateId {
    bytes: [u8; 32],
}

impl View for StateId {
    type V = Seq<u8>;

    closed spec fn view(&self) -> Seq<u8> {
        self.bytes@
    }
}

impl StateId {
    /// An identity is 32 bytes.
    pub proof fn lemma_len(&self)
        ensures
            self@.len() == 32,
    {
    }

    /// The identity of a state: SHA-256 of its canonical bytes.
    pub fn of(state: &State) -> (r: Self)
        requires
            state.network.wf(),
        ensures
            r@ == sha256_spec(canon(state.network@)),
    {
        let bytes = canonical_bytes(state);
        StateId { bytes: sha256(bytes.as_slice()) }
    }

    /// Parse 64 lowercase hex digits.
    pub fn from_hex(hex: &str) -> (r: Option<Self>)
        ensures
            r is Some <==> is_hex_id(sbytes(hex@)),
            r matches Some(id) ==> hex_bytes(id@) == sbytes(hex@),
    {
        match hex_to_32(hex) {
            Some(a) => Some(StateId { bytes: a }),
            None => None,
        }
    }

    /// The 64 lowercase hex digits.
    pub fn as_hex(&self) -> (r: String)
        ensures
            sbytes(r@) == hex_bytes(self@),
    {
        to_hex(&self.bytes)
    }

    pub fn as_bytes(&self) -> (r: [u8; 32])
        ensures
            r@ == self@,
    {
        self.bytes
    }

    /// The identity with the given digest bytes.
    pub(crate) fn from_array(bytes: [u8; 32]) -> (r: Self)
        ensures
            r@ == bytes@,
    {
        StateId { bytes }
    }
}

} // verus!
