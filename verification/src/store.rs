//! Content-addressed objects and reference names. A stored object is a
//! one-byte type tag followed by its payload, named by the lowercase hex
//! SHA-256 of the payload, so that a state is stored under its state id
//! and a commit under its commit id. On read the payload is hashed again
//! and must match its name, and a mismatch is a loud error. Reference
//! names are identifier segments separated by `/`.
use vstd::prelude::*;
use crate::text::{owned, sbytes};
use crate::identity::{sha256, sha256_spec, hex_bytes, to_hex};
use crate::describe::{u64_text, decimal};

verus! {

/// The tag of a stored state.
pub const STATE_TAG: u8 = 83u8;

/// The tag of a stored commit.
pub const COMMIT_TAG: u8 = 67u8;

/// The bytes of a stored object.
pub open spec fn object_bytes(tag: u8, payload: Seq<u8>) -> Seq<u8> {
    seq![tag] + payload
}

/// The name of a payload: the lowercase hex text of its SHA-256.
pub open spec fn object_name(payload: Seq<u8>) -> Seq<u8> {
    hex_bytes(sha256_spec(payload))
}

/// What follows the tag in stored bytes (nothing when there is no tag).
pub open spec fn stored_payload(bytes: Seq<u8>) -> Seq<u8> {
    if bytes.len() == 0 {
        Seq::empty()
    } else {
        bytes.drop_first()
    }
}

/// Frame a payload as a stored object: its name and its bytes.
pub fn frame_object(tag: u8, payload: &[u8]) -> (r: (String, Vec<u8>))
    requires
        payload@.len() < usize::MAX,
    ensures
        r.1@ == object_bytes(tag, payload@),
        sbytes(r.0@) == object_name(payload@),
{
    let mut bytes: Vec<u8> = Vec::new();
    bytes.push(tag);
    let mut i: usize = 0;
    while i < payload.len()
        invariant
            i <= payload@.len(),
            bytes@ == seq![tag] + payload@.take(i as int),
        decreases payload@.len() - i,
    {
        bytes.push(payload[i]);
        i = i + 1;
        proof {
            assert(payload@.take(i as int) =~= payload@.take(i - 1).push(payload@[i - 1]));
        }
    }
    proof {
        assert(payload@.take(payload@.len() as int) =~= payload@);
    }
    let digest = sha256(payload);
    let name = to_hex(&digest);
    (name, bytes)
}

/// Why stored bytes were refused.
#[derive(Debug, Clone, PartialEq, Eq)]
pub struct ObjectFault {
    /// What the name or the caller said the object is.
    pub expected: String,
    /// What the bytes turned out to be.
    pub found: String,
}

/// The payload of stored bytes read under a name, when the payload hashes
/// to that name and the bytes open with the expected tag.
pub open spec fn object_payload(name: Seq<u8>, bytes: Seq<u8>, tag: u8) -> Option<Seq<u8>> {
    if object_name(stored_payload(bytes)) == name && bytes.len() > 0 && bytes[0] == tag {
        Some(bytes.drop_first())
    } else {
        None
    }
}

/// Check stored bytes against their name and expected tag, and return the
/// payload. A payload that does not hash to its name is corrupted; so are
/// bytes with another tag.
pub fn open_object(name: &str, bytes: &[u8], tag: u8) -> (r: Result<Vec<u8>, ObjectFault>)
    ensures
        r is Ok <==> object_payload(sbytes(name@), bytes@, tag) is Some,
        r matches Ok(p) ==> Some(p@) == object_payload(sbytes(name@), bytes@, tag),
        object_name(stored_payload(bytes@)) != sbytes(name@) ==> (r matches Err(f) && f.expected@
            == name@ && sbytes(f.found@) == object_name(stored_payload(bytes@))),
        object_name(stored_payload(bytes@)) == sbytes(name@) && !(bytes@.len() > 0 && bytes@[0] == tag)
            ==> (r matches Err(f) && f.expected@ == "type tag "@ + decimal(tag as nat) && f.found@ == (
        if bytes@.len() == 0 {
            "tag None"@
        } else {
            "tag Some("@ + decimal(bytes@[0] as nat) + ")"@
        })),
{
    let mut payload: Vec<u8> = Vec::new();
    let mut i: usize = 1;
    while i < bytes.len()
        invariant
            1 <= i,
            bytes@.len() == 0 ==> payload@.len() == 0,
            bytes@.len() > 0 ==> i <= bytes@.len() && payload@ == bytes@.subrange(1, i as int),
        decreases bytes@.len() - i,
    {
        payload.push(bytes[i]);
        i = i + 1;
        proof {
            assert(bytes@.subrange(1, i as int) =~= bytes@.subrange(1, i - 1).push(bytes@[i - 1]));
        }
    }
    proof {
        if bytes@.len() == 0 {
            assert(payload@ =~= stored_payload(bytes@));
        } else {
            assert(bytes@.subrange(1, bytes@.len() as int) =~= bytes@.drop_first());
        }
    }
    let digest = sha256(payload.as_slice());
    let found = to_hex(&digest);
    if !crate::text::str_eq(found.as_str(), name) {
        proof {
            if sbytes(found@) == sbytes(name@) {
                crate::text::lemma_sbytes_injective(found@, name@);
            }
        }
        return Err(ObjectFault { expected: owned(name), found });
    }
    if bytes.len() == 0 || bytes[0] != tag {
        let mut expected = owned("type tag ");
        let t = u64_text(tag as u64);
        crate::model::push_str(&mut expected, t.as_str());
        let found_tag = if bytes.len() == 0 {
            owned("tag None")
        } else {
            let mut f = owned("tag Some(");
            let t = u64_text(bytes[0] as u64);
            crate::model::push_str(&mut f, t.as_str());
            crate::model::push_str(&mut f, ")");
            f
        };
        return Err(ObjectFault { expected, found: found_tag });
    }
    Ok(payload)
}

/// A stored object reads back as the payload it was framed from.
pub proof fn law_object_reads_back(tag: u8, payload: Seq<u8>)
    ensures
        object_payload(object_name(payload), object_bytes(tag, payload), tag) == Some(payload),
{
    assert(object_bytes(tag, payload).drop_first() =~= payload);
}

/// A byte allowed in a reference name segment.
pub open spec fn ref_byte_ok(c: u8) -> bool {
    (48 <= c <= 57) || (65 <= c <= 90) || (97 <= c <= 122) || c == 45 || c == 95 || c == 46
}

/// The reference name rules, over the name's bytes: 1 to 128 bytes of
/// segment characters and `/`, no leading, trailing or doubled `/`, and no
/// `..`.
pub open spec fn ref_name_ok(b: Seq<u8>) -> bool {
    &&& 0 < b.len() <= 128
    &&& b[0] != 47
    &&& b[b.len() - 1] != 47
    &&& forall|i: int| 0 <= i < b.len() ==> ref_byte_ok(#[trigger] b[i]) || b[i] == 47
    &&& forall|i: int| 0 <= i < b.len() - 1 ==> !(#[trigger] b[i] == 47 && b[i + 1] == 47)
    &&& forall|i: int| 0 <= i < b.len() - 1 ==> !(#[trigger] b[i] == 46 && b[i + 1] == 46)
}

/// Check a branch or reference name.
pub fn validate_ref_name(name: &str) -> (r: Result<(), ()>)
    ensures
        r is Ok <==> ref_name_ok(sbytes(name@)),
{
    let b = name.as_bytes();
    proof {
        assert(b@ == sbytes(name@));
    }
    let n = b.len();
    if n == 0 || n > 128 {
        return Err(());
    }
    if b[0] == 47 || b[n - 1] == 47 {
        return Err(());
    }
    let mut i: usize = 0;
    while i < n
        invariant
            b@ == sbytes(name@),
            n == b@.len(),
            0 < n <= 128,
            b@[0] != 47,
            b@[n - 1] != 47,
            i <= n,
            forall|j: int| 0 <= j < i ==> ref_byte_ok(#[trigger] b@[j]) || b@[j] == 47,
            forall|j: int| 0 <= j < i && j < n - 1 ==> !(#[trigger] b@[j] == 47 && b@[j + 1] == 47),
            forall|j: int| 0 <= j < i && j < n - 1 ==> !(#[trigger] b@[j] == 46 && b@[j + 1] == 46),
        decreases n - i,
    {
        let c = b[i];
        let ok = (48 <= c && c <= 57) || (65 <= c && c <= 90) || (97 <= c && c <= 122) || c == 45
            || c == 95 || c == 46 || c == 47;
        if !ok {
            return Err(());
        }
        if i + 1 < n {
            let d = b[i + 1];
            if (c == 47 && d == 47) || (c == 46 && d == 46) {
                proof {
                    assert(b@[i as int] == c && b@[i + 1] == d);
                }
                return Err(());
            }
        }
        i = i + 1;
    }
    Ok(())
}

} // verus!
