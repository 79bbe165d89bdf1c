//! Causal memory: explicit, status-labeled edges between immutable anchors
//! (observations, commits), kept as an append-only DAG. Nothing is
//! inferred: every edge is an asserted relation whose status labels its
//! epistemic strength.
use vstd::prelude::*;
use crate::text::{owned, sbytes, str_eq, lemma_sbytes_concat, bytes_lt, bytes_compare, Compared, lemma_bytes_lt_irrefl, lemma_bytes_lt_trans, lemma_bytes_lt_total};
use crate::model::push_str;
use crate::canonical::{
    enc_u64, enc_str, put_u64, put_str, read_u64, read_str, is_at, lemma_at_split, lemma_u64_facts,
    lemma_u64_at, lemma_part_at, CanonicalError,
};
use crate::seqs::{concat, lemma_concat_push, lemma_concat_len_at_least, sorted_by, sorted_enum, strict_order, total, enumerates, lemma_sorted_enum};
use crate::obs::frame;
use crate::identity::{to_hex, hex_bytes, is_hex_id, hex_bytes_to_32};
use vstd::slice::slice_subrange;
use crate::describe::{debug_str, debug_str_spec, decimal, digit_char, u64_text, decimal_text};

verus! {

/// Why a causal edge or query was rejected.
#[derive(Debug, Clone, PartialEq, Eq)]
pub enum CausalError {
    InvalidAnchor { anchor: String },
    DanglingAnchor { anchor: String },
    InvalidStatus { status: String },
    VerifiedRequiresCommits,
    Cycle,
    MalformedRecord { offset: usize, message: String },
    Io(String),
}

/// The text of a causal rejection.
pub open spec fn causal_error_text(e: CausalError) -> Seq<char> {
    match e {
        CausalError::InvalidAnchor { anchor } => "invalid anchor "@ + debug_str_spec(anchor@)
            + " (expected obs:<seq> or commit:<64-hex>)"@,
        CausalError::DanglingAnchor { anchor } => "anchor "@ + anchor@ + " does not exist"@,
        CausalError::InvalidStatus { status } => "invalid status "@ + debug_str_spec(status@)
            + " (expected temporal-correlation|hypothesis|verified)"@,
        CausalError::VerifiedRequiresCommits => "verified edges require Commit anchors on both ends"@,
        CausalError::Cycle => "edge rejected: it would close a cycle in the causal DAG"@,
        CausalError::MalformedRecord { offset, message } => "malformed causal record at byte "@
            + decimal(offset as nat) + ": "@ + message@,
        CausalError::Io(e) => "io error: "@ + e@,
    }
}

impl CausalError {
    /// The human-readable text of the rejection.
    pub fn message(&self) -> (r: String)
        ensures
            r@ == causal_error_text(*self),
    {
        match self {
            CausalError::InvalidAnchor { anchor } => {
                let mut s = owned("invalid anchor ");
                let q = debug_str(anchor.as_str());
                push_str(&mut s, q.as_str());
                push_str(&mut s, " (expected obs:<seq> or commit:<64-hex>)");
                s
            },
            CausalError::DanglingAnchor { anchor } => {
                let mut s = owned("anchor ");
                push_str(&mut s, anchor.as_str());
                push_str(&mut s, " does not exist");
                s
            },
            CausalError::InvalidStatus { status } => {
                let mut s = owned("invalid status ");
                let q = debug_str(status.as_str());
                push_str(&mut s, q.as_str());
                push_str(&mut s, " (expected temporal-correlation|hypothesis|verified)");
                s
            },
            CausalError::VerifiedRequiresCommits => owned(
                "verified edges require Commit anchors on both ends",
            ),
            CausalError::Cycle => owned("edge rejected: it would close a cycle in the causal DAG"),
            CausalError::MalformedRecord { offset, message } => {
                let mut s = owned("malformed causal record at byte ");
                let n = decimal_text(*offset);
                push_str(&mut s, n.as_str());
                push_str(&mut s, ": ");
                push_str(&mut s, message.as_str());
                s
            },
            CausalError::Io(e) => {
                let mut s = owned("io error: ");
                push_str(&mut s, e.as_str());
                s
            },
        }
    }
}

/// An immutable endpoint of a causal edge.
#[derive(Debug, Clone, PartialEq, Eq, PartialOrd, Ord)]
pub enum Anchor {
    /// Position in the observation log.
    Observation(u64),
    /// Content-addressed commit.
    Commit([u8; 32]),
}

/// The view of an anchor.
pub enum AnchorV {
    Obs(u64),
    Commit(Seq<u8>),
}

impl View for Anchor {
    type V = AnchorV;

    open spec fn view(&self) -> AnchorV {
        match self {
            Anchor::Observation(n) => AnchorV::Obs(*n),
            Anchor::Commit(b) => AnchorV::Commit(b@),
        }
    }
}

/// The value of a string of decimal digits.
pub open spec fn digits_value(d: Seq<u8>) -> nat
    decreases d.len(),
{
    if d.len() == 0 {
        0
    } else {
        digits_value(d.drop_last()) * 10 + (d.last() - 48) as nat
    }
}

/// Every byte is an ASCII digit.
pub open spec fn all_digits(d: Seq<u8>) -> bool {
    forall|i: int| 0 <= i < d.len() ==> 48 <= #[trigger] d[i] <= 57
}

/// The digits of an unsigned decimal text: an optional `+`, then the rest.
pub open spec fn unsigned_digits(b: Seq<u8>) -> Seq<u8> {
    if b.len() > 0 && b[0] == 43 {
        b.skip(1)
    } else {
        b
    }
}

/// The number a string of decimal digits denotes, when it is one that fits
/// in a `u64`.
pub open spec fn digits_of(d: Seq<u8>) -> Option<u64> {
    if d.len() > 0 && all_digits(d) && digits_value(d) <= u64::MAX {
        Some(digits_value(d) as u64)
    } else {
        None
    }
}

/// The number an unsigned decimal text denotes, as `str::parse::<u64>`
/// reads it: an optional `+` and at least one digit, within range.
pub open spec fn u64_of_text(b: Seq<u8>) -> Option<u64> {
    digits_of(unsigned_digits(b))
}

proof fn lemma_digits_prefix(d: Seq<u8>, i: int)
    requires
        0 <= i <= d.len(),
    ensures
        digits_value(d.take(i)) <= digits_value(d),
    decreases d.len() - i,
{
    if i < d.len() {
        lemma_digits_prefix(d, i + 1);
        assert(d.take(i + 1).drop_last() =~= d.take(i));
    } else {
        assert(d.take(i) =~= d);
    }
}

/// Parse the decimal digits that follow position `start`.
pub(crate) fn parse_digits(b: &[u8], start: usize) -> (r: Option<u64>)
    requires
        start <= b@.len(),
    ensures
        r == digits_of(b@.skip(start as int)),
{
    let ghost d = b@.skip(start as int);
    if start == b.len() {
        return None;
    }
    let mut acc: u64 = 0;
    let mut i: usize = start;
    while i < b.len()
        invariant
            start <= i <= b@.len(),
            d == b@.skip(start as int),
            acc as nat == digits_value(d.take(i - start)),
            all_digits(d.take(i - start)),
        decreases b.len() - i,
    {
        let c = b[i];
        if c < 48 || c > 57 {
            proof {
                assert(d[i - start] == c);
                assert(!all_digits(d));
            }
            return None;
        }
        proof {
            assert(d.take(i + 1 - start).drop_last() =~= d.take(i - start));
            assert(d.take(i + 1 - start).last() == c);
        }
        let m = acc.checked_mul(10);
        let m = match m {
            Some(m) => m,
            None => {
                proof {
                    lemma_digits_prefix(d, i + 1 - start);
                }
                return None;
            },
        };
        let v = m.checked_add((c - 48) as u64);
        match v {
            Some(v) => {
                acc = v;
            },
            None => {
                proof {
                    lemma_digits_prefix(d, i + 1 - start);
                }
                return None;
            },
        }
        i = i + 1;
        proof {
            assert forall|j: int| 0 <= j < d.take(i - start).len() implies 48 <= #[trigger] d.take(
                i - start,
            )[j] <= 57 by {
                if j < i - 1 - start {
                    assert(d.take(i - 1 - start)[j] == d.take(i - start)[j]);
                }
            }
        }
    }
    proof {
        assert(d.take(b@.len() - start) =~= d);
    }
    Some(acc)
}

/// Parse an unsigned decimal number written in ASCII bytes.
pub(crate) fn parse_u64(b: &[u8]) -> (r: Option<u64>)
    ensures
        r == u64_of_text(b@),
{
    let start: usize = if b.len() > 0 && b[0] == 43 {
        1
    } else {
        0
    };
    proof {
        assert(unsigned_digits(b@) =~= b@.skip(start as int));
    }
    parse_digits(b, start)
}

/// Whether two anchors are the same.
pub fn anchor_eq(a: &Anchor, b: &Anchor) -> (r: bool)
    ensures
        r == (a@ == b@),
{
    match (a, b) {
        (Anchor::Observation(x), Anchor::Observation(y)) => *x == *y,
        (Anchor::Commit(x), Anchor::Commit(y)) => {
            let mut i: usize = 0;
            while i < 32
                invariant
                    a@ == AnchorV::Commit(x@),
                    b@ == AnchorV::Commit(y@),
                    x@.len() == 32,
                    y@.len() == 32,
                    i <= 32,
                    forall|j: int| 0 <= j < i ==> x@[j] == y@[j],
                decreases 32 - i,
            {
                if x[i] != y[i] {
                    proof {
                        assert(x@[i as int] != y@[i as int]);
                        assert(x@ != y@);
                        assert(a@ == AnchorV::Commit(x@));
                        assert(b@ == AnchorV::Commit(y@));
                    }
                    return false;
                }
                i = i + 1;
            }
            proof {
                assert(x@ =~= y@);
            }
            true
        },
        _ => false,
    }
}

/// A copy of an anchor.
pub fn anchor_copy(a: &Anchor) -> (r: Anchor)
    ensures
        r@ == a@,
{
    match a {
        Anchor::Observation(n) => Anchor::Observation(*n),
        Anchor::Commit(b) => Anchor::Commit(*b),
    }
}

/// The text of an anchor: `obs:<seq>` or `commit:<64 hex digits>`.
pub open spec fn anchor_text(a: AnchorV, t: Seq<char>) -> bool {
    match a {
        AnchorV::Obs(n) => t == "obs:"@ + decimal(n as nat),
        AnchorV::Commit(b) => t.len() >= 7 && t.take(7) == "commit:"@ && sbytes(t.skip(7)) == hex_bytes(
            b,
        ),
    }
}

/// The bytes of `obs:`.
pub open spec fn obs_tag() -> Seq<u8> {
    seq![111u8, 98u8, 115u8, 58u8]
}

/// The bytes of `commit:`.
pub open spec fn commit_tag() -> Seq<u8> {
    seq![99u8, 111u8, 109u8, 109u8, 105u8, 116u8, 58u8]
}

/// The text `Anchor::parse` accepts for an anchor, split at the first `:`.
pub open spec fn anchor_of_text(s: Seq<char>) -> Option<AnchorV> {
    let b = sbytes(s);
    if b.len() >= 4 && b.take(4) == obs_tag() {
        match u64_of_text(b.skip(4)) {
            Some(n) => Some(AnchorV::Obs(n)),
            None => None,
        }
    } else if b.len() >= 7 && b.take(7) == commit_tag() && is_hex_id(b.skip(7)) {
        Some(AnchorV::Commit(choose|x: Seq<u8>| x.len() == 32 && hex_bytes(x) == b.skip(7)))
    } else {
        None
    }
}

/// The decimal text of a number is a non-empty run of digits whose value
/// is the number.
proof fn lemma_decimal_digits(n: nat)
    ensures
        sbytes(decimal(n)).len() > 0,
        all_digits(sbytes(decimal(n))),
        digits_value(sbytes(decimal(n))) == n,
    decreases n,
{
    let c = digit_char(n % 10);
    let one = seq![c];
    assert(vstd::utf8::is_ascii_chars(one));
    vstd::utf8::is_ascii_chars_encode_utf8(one);
    assert(sbytes(one).len() == 1);
    assert(sbytes(one)[0] == c as u8);
    assert(c as u8 == 48 + n % 10);
    if n < 10 {
        assert(decimal(n) == one);
        assert(sbytes(one).drop_last() =~= Seq::<u8>::empty());
        assert(digits_value(Seq::<u8>::empty()) == 0);
        assert(n % 10 == n);
        assert(digits_value(sbytes(one)) == digits_value(sbytes(one).drop_last()) * 10 + (sbytes(one).last()
            - 48) as nat);
    } else {
        lemma_decimal_digits(n / 10);
        assert(decimal(n) == decimal(n / 10) + one);
        lemma_sbytes_concat(decimal(n / 10), one);
        let d = sbytes(decimal(n / 10));
        let e = sbytes(decimal(n));
        assert(e == d + sbytes(one));
        assert(e.drop_last() =~= d);
        assert(e.last() == 48 + n % 10);
        assert(all_digits(e)) by {
            assert forall|i: int| 0 <= i < e.len() implies 48 <= #[trigger] e[i] <= 57 by {
                if i < d.len() {
                    assert(e[i] == d[i]);
                }
            }
        }
        assert(digits_value(e) == digits_value(d) * 10 + (n % 10));
        assert((n / 10) * 10 + n % 10 == n) by (nonlinear_arith);
    }
}

/// Reading back the text of a well-formed anchor gives the anchor.
pub proof fn law_anchor_text_round_trip(a: AnchorV, t: Seq<char>)
    requires
        anchor_ok(a),
        anchor_text(a, t),
    ensures
        anchor_of_text(t) == Some(a),
{
    reveal_strlit("obs:");
    reveal_strlit("commit:");
    match a {
        AnchorV::Obs(n) => {
            let tag = "obs:"@;
            vstd::utf8::is_ascii_chars_encode_utf8(tag);
            assert(sbytes(tag) =~= obs_tag());
            lemma_sbytes_concat(tag, decimal(n as nat));
            let b = sbytes(t);
            assert(b.take(4) =~= obs_tag());
            assert(b.skip(4) =~= sbytes(decimal(n as nat)));
            lemma_decimal_digits(n as nat);
            let d = sbytes(decimal(n as nat));
            assert(d[0] != 43);
            assert(unsigned_digits(d) == d);
        },
        AnchorV::Commit(x) => {
            let tag = "commit:"@;
            vstd::utf8::is_ascii_chars_encode_utf8(tag);
            assert(sbytes(tag) =~= commit_tag());
            assert(t =~= tag + t.skip(7));
            lemma_sbytes_concat(tag, t.skip(7));
            let b = sbytes(t);
            assert(b.take(4) =~= sbytes(tag).take(4));
            assert(b.take(4) != obs_tag()) by {
                assert(b[0] == 99u8);
            }
            assert(b.take(7) =~= commit_tag());
            assert(b.skip(7) =~= sbytes(t.skip(7)));
            crate::identity::lemma_hex_round_trip(x);
        },
    }
}

impl Anchor {
    /// Parse `obs:<seq>` or `commit:<64 lowercase hex digits>`.
    pub fn parse(s: &str) -> (r: Result<Anchor, CausalError>)
        ensures
            ({
                let b = sbytes(s@);
                &&& b.len() >= 4 && b.take(4) == obs_tag() ==> match u64_of_text(b.skip(4)) {
                    Some(n) => r matches Ok(a) && a@ == AnchorV::Obs(n),
                    None => r matches Err(CausalError::InvalidAnchor { anchor }) && anchor@ == s@,
                }
                &&& b.len() >= 7 && b.take(7) == commit_tag() ==> if is_hex_id(b.skip(7)) {
                    r matches Ok(Anchor::Commit(id)) && hex_bytes(id@) == b.skip(7)
                } else {
                    r matches Err(CausalError::InvalidAnchor { anchor }) && anchor@ == s@
                }
                &&& !(b.len() >= 4 && b.take(4) == obs_tag()) && !(b.len() >= 7 && b.take(7)
                    == commit_tag()) ==> (r matches Err(CausalError::InvalidAnchor { anchor })
                    && anchor@ == s@)
            }),
            r is Ok <==> anchor_of_text(s@) is Some,
            r matches Ok(a) ==> anchor_of_text(s@) == Some(a@),
    {
        let b = s.as_bytes();
        proof {
            reveal_strlit("obs:");
            reveal_strlit("commit:");
        }
        let is_obs = b.len() >= 4 && b[0] == 111 && b[1] == 98 && b[2] == 115 && b[3] == 58;
        let is_commit = b.len() >= 7 && b[0] == 99 && b[1] == 111 && b[2] == 109 && b[3] == 109
            && b[4] == 105 && b[5] == 116 && b[6] == 58;
        proof {
            if b@.len() >= 4 {
                assert(is_obs == (b@.take(4) == obs_tag())) by {
                    if b@.take(4) == obs_tag() {
                        assert(b@.take(4)[0] == 111u8);
                        assert(b@.take(4)[1] == 98u8);
                        assert(b@.take(4)[2] == 115u8);
                        assert(b@.take(4)[3] == 58u8);
                    }
                    if is_obs {
                        assert(b@.take(4) =~= obs_tag());
                    }
                }
            }
            if b@.len() >= 7 {
                assert(is_commit == (b@.take(7) == commit_tag())) by {
                    if b@.take(7) == commit_tag() {
                        assert(b@.take(7)[0] == 99u8);
                        assert(b@.take(7)[1] == 111u8);
                        assert(b@.take(7)[2] == 109u8);
                        assert(b@.take(7)[3] == 109u8);
                        assert(b@.take(7)[4] == 105u8);
                        assert(b@.take(7)[5] == 116u8);
                        assert(b@.take(7)[6] == 58u8);
                    }
                    if is_commit {
                        assert(b@.take(7) =~= commit_tag());
                    }
                }
            }
        }
        if is_obs {
            let rest = slice_subrange(b, 4, b.len());
            proof {
                assert(rest@ =~= b@.skip(4));
            }
            match parse_u64(rest) {
                Some(n) => Ok(Anchor::Observation(n)),
                None => Err(CausalError::InvalidAnchor { anchor: owned(s) }),
            }
        } else if is_commit {
            let rest = slice_subrange(b, 7, b.len());
            proof {
                assert(rest@ =~= b@.skip(7));
            }
            match hex_bytes_to_32(rest) {
                Some(a) => {
                    proof {
                        assert(b@ == sbytes(s@));
                        assert(a@.len() == 32 && hex_bytes(a@) == sbytes(s@).skip(7));
                        assert(!(sbytes(s@).take(4) == obs_tag())) by {
                            assert(sbytes(s@).take(4)[0] == 99u8);
                        }
                        assert(is_hex_id(sbytes(s@).skip(7)));
                        let got = anchor_of_text(s@);
                        assert(got matches Some(AnchorV::Commit(y)) && y.len() == 32 && hex_bytes(y) == sbytes(
                            s@,
                        ).skip(7));
                        let y = got.unwrap()->Commit_0;
                        crate::identity::lemma_hex_injective(y, a@);
                    }
                    Ok(Anchor::Commit(a))
                },
                None => Err(CausalError::InvalidAnchor { anchor: owned(s) }),
            }
        } else {
            Err(CausalError::InvalidAnchor { anchor: owned(s) })
        }
    }

    /// The text form: `obs:<seq>` or `commit:<hex>`.
    pub fn text(&self) -> (r: String)
        ensures
            anchor_text(self@, r@),
    {
        match self {
            Anchor::Observation(n) => {
                let mut s = owned("obs:");
                let t = u64_text(*n);
                push_str(&mut s, t.as_str());
                s
            },
            Anchor::Commit(id) => {
                let mut s = owned("commit:");
                let h = to_hex(id);
                push_str(&mut s, h.as_str());
                proof {
                    reveal_strlit("commit:");
                    assert(s@.take(7) =~= "commit:"@);
                    assert(s@.skip(7) =~= h@);
                }
                s
            },
        }
    }
}

/// Epistemic status of a causal edge.
#[derive(Debug, Clone, Copy, PartialEq, Eq, PartialOrd, Ord)]
pub enum Status {
    /// Ordering or adjacency asserted; no causal claim.
    TemporalCorrelation,
    /// Suspected causal link.
    Hypothesis,
    /// Structurally checkable provenance: commit-anchored only.
    Verified,
}

/// The name of a status.
pub open spec fn status_name(s: Status) -> Seq<char> {
    match s {
        Status::TemporalCorrelation => "temporal-correlation"@,
        Status::Hypothesis => "hypothesis"@,
        Status::Verified => "verified"@,
    }
}

/// The code a status is stored as.
pub open spec fn status_code(s: Status) -> nat {
    match s {
        Status::TemporalCorrelation => 1,
        Status::Hypothesis => 2,
        Status::Verified => 3,
    }
}

impl Status {
    /// Parse a status name.
    pub fn parse(s: &str) -> (r: Result<Status, CausalError>)
        ensures
            s@ == "temporal-correlation"@ ==> r == Ok::<Status, CausalError>(Status::TemporalCorrelation),
            s@ == "hypothesis"@ ==> r == Ok::<Status, CausalError>(Status::Hypothesis),
            s@ == "verified"@ ==> r == Ok::<Status, CausalError>(Status::Verified),
            s@ != "temporal-correlation"@ && s@ != "hypothesis"@ && s@ != "verified"@ ==> (r matches Err(
                CausalError::InvalidStatus { status },
            ) && status@ == s@),
            forall|t: Status| s@ == status_name(t) ==> r == Ok::<Status, CausalError>(t),
    {
        proof {
            reveal_strlit("temporal-correlation");
            reveal_strlit("hypothesis");
            reveal_strlit("verified");
            assert("hypothesis"@.len() != "temporal-correlation"@.len());
            assert("verified"@.len() != "temporal-correlation"@.len());
            assert("verified"@.len() != "hypothesis"@.len());
        }
        if str_eq(s, "temporal-correlation") {
            Ok(Status::TemporalCorrelation)
        } else if str_eq(s, "hypothesis") {
            Ok(Status::Hypothesis)
        } else if str_eq(s, "verified") {
            Ok(Status::Verified)
        } else {
            Err(CausalError::InvalidStatus { status: owned(s) })
        }
    }

    /// The status name.
    pub fn as_str(&self) -> (r: &'static str)
        ensures
            r@ == status_name(*self),
    {
        match self {
            Status::TemporalCorrelation => "temporal-correlation",
            Status::Hypothesis => "hypothesis",
            Status::Verified => "verified",
        }
    }
}

/// Longest note on an edge, in bytes.
pub const MAX_NOTE_BYTES: usize = 256;

/// An asserted causal relation between two anchors.
#[derive(Debug, Clone, PartialEq, Eq)]
pub struct CausalEdge {
    /// Ingest position (count of prior edges).
    pub seq: u64,
    pub from: Anchor,
    pub to: Anchor,
    pub status: Status,
    /// Bounded free text (at most 256 bytes).
    pub note: String,
}

/// The view of an edge.
pub struct CausalEdgeV {
    pub seq: u64,
    pub from: AnchorV,
    pub to: AnchorV,
    pub status: Status,
    pub note: Seq<char>,
}

impl View for CausalEdge {
    type V = CausalEdgeV;

    open spec fn view(&self) -> CausalEdgeV {
        CausalEdgeV {
            seq: self.seq,
            from: self.from@,
            to: self.to@,
            status: self.status,
            note: self.note@,
        }
    }
}

/// An anchor names a commit.
pub open spec fn is_commit(a: AnchorV) -> bool {
    a is Commit
}

/// The edge rules: no self edge, a bounded note, and verified edges only
/// between commits.
pub open spec fn edge_ok(from: AnchorV, to: AnchorV, status: Status, note: Seq<char>) -> bool {
    &&& from != to
    &&& sbytes(note).len() <= 256
    &&& (status == Status::Verified ==> is_commit(from) && is_commit(to))
}

/// An edge the rules accept joins two different anchors, carries a note of
/// at most 256 bytes, and, when verified, has a commit at both ends.
pub proof fn law_edge_rules(from: AnchorV, to: AnchorV, status: Status, note: Seq<char>)
    ensures
        edge_ok(from, to, status, note) ==> from != to && sbytes(note).len() <= 256,
        edge_ok(from, to, Status::Verified, note) ==> (from matches AnchorV::Commit(_)) && (to matches AnchorV::Commit(
            _,
        )),
        from != to && sbytes(note).len() <= 256 && (from matches AnchorV::Commit(_)) && (to matches AnchorV::Commit(
            _,
        )) ==> edge_ok(from, to, status, note),
        from != to && sbytes(note).len() <= 256 && status != Status::Verified ==> edge_ok(from, to, status, note),
{
}

/// The rejection `CausalEdge::new` gives: the first rule broken.
pub open spec fn edge_rejection(
    from: AnchorV,
    to: AnchorV,
    status: Status,
    note: Seq<char>,
    e: CausalError,
) -> bool {
    if from == to {
        e == CausalError::Cycle
    } else if sbytes(note).len() > 256 {
        e matches CausalError::MalformedRecord { offset, message } && offset == 0 && message@
            == "note exceeds 256 bytes"@
    } else {
        e == CausalError::VerifiedRequiresCommits
    }
}

/// Canonical bytes of an anchor: tag 1 and the position, or tag 2 and the
/// length-prefixed commit id.
pub open spec fn enc_anchor(a: AnchorV) -> Seq<u8> {
    match a {
        AnchorV::Obs(n) => enc_u64(1) + enc_u64(n as nat),
        AnchorV::Commit(b) => enc_u64(2) + enc_u64(b.len()) + b,
    }
}

/// Canonical bytes of an edge: seq, from, to, status code, note.
pub open spec fn enc_edge(e: CausalEdgeV) -> Seq<u8> {
    enc_u64(e.seq as nat) + enc_anchor(e.from) + enc_anchor(e.to) + enc_u64(status_code(e.status))
        + enc_str(e.note)
}

/// An anchor is well formed: a commit id has 32 bytes.
pub open spec fn anchor_ok(a: AnchorV) -> bool {
    match a {
        AnchorV::Commit(b) => b.len() == 32,
        _ => true,
    }
}

fn causal_malformed(e: CanonicalError) -> (r: CausalError)
    ensures
        r matches CausalError::MalformedRecord { offset, message } && offset == e.offset && message@
            == e.message@,
{
    CausalError::MalformedRecord { offset: e.offset, message: e.message }
}

fn causal_malformed_at(offset: usize, message: String) -> (r: CausalError)
    ensures
        r matches CausalError::MalformedRecord { offset: o, message: m } && o == offset && m@
            == message@,
{
    CausalError::MalformedRecord { offset, message }
}

/// `prefix` followed by a number.
fn with_number(prefix: &str, t: u64) -> (r: String)
    ensures
        r@ == prefix@ + decimal(t as nat),
{
    let mut s = owned(prefix);
    let n = u64_text(t);
    push_str(&mut s, n.as_str());
    s
}

/// Append an anchor's canonical bytes.
fn put_anchor(buf: &mut Vec<u8>, a: &Anchor)
    ensures
        final(buf)@ == old(buf)@ + enc_anchor(a@),
{
    match a {
        Anchor::Observation(n) => {
            put_u64(buf, 1);
            put_u64(buf, *n);
        },
        Anchor::Commit(id) => {
            put_u64(buf, 2);
            put_u64(buf, 32);
            let mut i: usize = 0;
            let ghost start = buf@;
            while i < 32
                invariant
                    id@.len() == 32,
                    i <= 32,
                    buf@ == start + id@.take(i as int),
                decreases 32 - i,
            {
                buf.push(id[i]);
                proof {
                    assert(id@.take(i + 1) =~= id@.take(i as int).push(id@[i as int]));
                }
                i = i + 1;
            }
            proof {
                assert(id@.take(32) =~= id@);
            }
        },
    }
    proof {
        assert(final(buf)@ =~= old(buf)@ + enc_anchor(a@));
    }
}

/// Two well-formed anchors encoded at the same place have encodings of
/// the same length.
proof fn lemma_anchor_len_eq(b: Seq<u8>, pos: int, a1: AnchorV, a2: AnchorV)
    requires
        is_at(b, pos, enc_anchor(a1)),
        is_at(b, pos, enc_anchor(a2)),
        anchor_ok(a1),
        anchor_ok(a2),
    ensures
        enc_anchor(a1).len() == enc_anchor(a2).len(),
{
    lemma_u64_facts();
    let tag = |a: AnchorV| -> nat {
        match a {
            AnchorV::Obs(_) => 1nat,
            AnchorV::Commit(_) => 2nat,
        }
    };
    assert forall|a: AnchorV| #[trigger] is_at(b, pos, enc_anchor(a)) implies is_at(b, pos, enc_u64(tag(a))) by {
        match a {
            AnchorV::Obs(n) => {
                lemma_at_split(b, pos, enc_u64(1), enc_u64(n as nat));
            },
            AnchorV::Commit(x) => {
                lemma_at_split(b, pos, enc_u64(2) + enc_u64(x.len()), x);
                lemma_at_split(b, pos, enc_u64(2), enc_u64(x.len()));
            },
        }
    }
    lemma_u64_at(b, pos, tag(a1), tag(a2));
}

/// No encoding of a well-formed edge is a proper prefix of another.
proof fn lemma_edge_prefix_free(t1: CausalEdgeV, t2: CausalEdgeV)
    requires
        anchor_ok(t1.from),
        anchor_ok(t1.to),
        anchor_ok(t2.from),
        anchor_ok(t2.to),
        is_at(enc_edge(t2), 0, enc_edge(t1)),
        enc_edge(t2).len() <= u64::MAX,
    ensures
        enc_edge(t1).len() == enc_edge(t2).len(),
{
    lemma_u64_facts();
    let b = enc_edge(t2);
    assert(b.subrange(0, b.len() as int) =~= b);
    assert forall|t: CausalEdgeV| #[trigger] is_at(b, 0, enc_edge(t)) implies {
        let p1: int = 8;
        let p2: int = p1 + enc_anchor(t.from).len();
        let p3: int = p2 + enc_anchor(t.to).len();
        &&& is_at(b, p1, enc_anchor(t.from))
        &&& is_at(b, p2, enc_anchor(t.to))
        &&& is_at(b, p3 + 8, enc_u64(sbytes(t.note).len()))
        &&& p3 + 8 + enc_str(t.note).len() == enc_edge(t).len()
        &&& enc_edge(t).len() <= b.len()
    } by {
        let a1 = enc_u64(t.seq as nat);
        let a2 = a1 + enc_anchor(t.from);
        let a3 = a2 + enc_anchor(t.to);
        let a4 = a3 + enc_u64(status_code(t.status));
        assert(enc_edge(t) == a4 + enc_str(t.note));
        lemma_at_split(b, 0, a4, enc_str(t.note));
        lemma_at_split(b, 0, a3, enc_u64(status_code(t.status)));
        lemma_at_split(b, 0, a2, enc_anchor(t.to));
        lemma_at_split(b, 0, a1, enc_anchor(t.from));
        lemma_at_split(b, a4.len() as int, enc_u64(sbytes(t.note).len()), sbytes(t.note));
    }
    assert(is_at(b, 0, enc_edge(t2)));
    lemma_anchor_len_eq(b, 8, t1.from, t2.from);
    lemma_anchor_len_eq(b, 8 + enc_anchor(t1.from).len() as int, t1.to, t2.to);
    let p3: int = (8 + enc_anchor(t1.from).len() + enc_anchor(t1.to).len()) as int;
    lemma_u64_at(b, p3 + 8, sbytes(t1.note).len(), sbytes(t2.note).len());
}

/// Read an anchor.
fn read_anchor(b: &[u8], pos: usize) -> (r: Result<(Anchor, usize), CausalError>)
    requires
        pos <= b@.len(),
    ensures
        r matches Ok((a, p)) ==> p == pos + enc_anchor(a@).len() && is_at(b@, pos as int, enc_anchor(a@)),
        r matches Err(e) ==> e is MalformedRecord,
        forall|t: AnchorV| #[trigger]
            is_at(b@, pos as int, enc_anchor(t)) && anchor_ok(t) ==> (r matches Ok((a, _)) && a@ == t),
{
    proof {
        lemma_u64_facts();
        assert forall|t: AnchorV| #[trigger] is_at(b@, pos as int, enc_anchor(t)) implies (match t {
            AnchorV::Obs(n) => is_at(b@, pos as int, enc_u64(1)) && is_at(b@, pos + 8, enc_u64(n as nat)),
            AnchorV::Commit(x) => is_at(b@, pos as int, enc_u64(2)) && is_at(b@, pos + 8, enc_u64(x.len()))
                && is_at(b@, pos + 16, x),
        }) by {
            match t {
                AnchorV::Obs(n) => {
                    lemma_at_split(b@, pos as int, enc_u64(1), enc_u64(n as nat));
                },
                AnchorV::Commit(x) => {
                    lemma_at_split(b@, pos as int, enc_u64(2) + enc_u64(x.len()), x);
                    lemma_at_split(b@, pos as int, enc_u64(2), enc_u64(x.len()));
                },
            }
        }
    }
    let (tag, p) = match read_u64(b, pos) {
        Ok(x) => x,
        Err(e) => {
            return Err(causal_malformed(e));
        },
    };
    proof {
        assert forall|t: AnchorV| #[trigger] is_at(b@, pos as int, enc_anchor(t)) implies match t {
            AnchorV::Obs(_) => tag == 1,
            AnchorV::Commit(_) => tag == 2,
        } by {
            match t {
                AnchorV::Obs(_) => {
                    lemma_u64_at(b@, pos as int, tag as nat, 1);
                },
                AnchorV::Commit(_) => {
                    lemma_u64_at(b@, pos as int, tag as nat, 2);
                },
            }
        }
    }
    if tag == 1 {
        let (n, q) = match read_u64(b, p) {
            Ok(x) => x,
            Err(e) => {
                return Err(causal_malformed(e));
            },
        };
        proof {
            lemma_at_split(b@, pos as int, enc_u64(1), enc_u64(n as nat));
            assert forall|t: AnchorV| #[trigger] is_at(b@, pos as int, enc_anchor(t)) implies t
                == AnchorV::Obs(n) by {
                if let AnchorV::Obs(y) = t {
                    lemma_u64_at(b@, p as int, n as nat, y as nat);
                }
            }
        }
        Ok((Anchor::Observation(n), q))
    } else if tag == 2 {
        let (len, q) = match read_u64(b, p) {
            Ok(x) => x,
            Err(e) => {
                return Err(causal_malformed(e));
            },
        };
        proof {
            assert forall|t: AnchorV| #[trigger] is_at(b@, pos as int, enc_anchor(t)) && anchor_ok(t) implies match t {
                AnchorV::Commit(x) => len == x.len(),
                _ => true,
            } by {
                if let AnchorV::Commit(x) = t {
                    lemma_u64_at(b@, p as int, len as nat, x.len());
                }
            }
        }
        if len > (b.len() - q) as u64 {
            return Err(causal_malformed_at(q, owned("length prefix exceeds remaining input")));
        }
        if len != 32 {
            return Err(causal_malformed_at(q, owned("commit anchor must be 32 bytes")));
        }
        let mut id: [u8; 32] = [0u8; 32];
        let mut i: usize = 0;
        assert(q + 32 <= b.len());
        while i < 32
            invariant
                q + 32 <= b.len(),
                b.len() == b@.len(),
                i <= 32,
                id@.len() == 32,
                forall|j: int| 0 <= j < i ==> id@[j] == b@[q + j],
            decreases 32 - i,
        {
            id[i] = b[q + i];
            i = i + 1;
        }
        proof {
            assert(id@ =~= b@.subrange(q as int, q + 32));
            lemma_at_split(b@, pos as int, enc_u64(2), enc_u64(32));
            lemma_at_split(b@, pos as int, enc_u64(2) + enc_u64(32), id@);
            assert forall|t: AnchorV| #[trigger] is_at(b@, pos as int, enc_anchor(t)) && anchor_ok(t)
                implies t == AnchorV::Commit(id@) by {
                if let AnchorV::Commit(x) = t {
                    assert(x =~= id@);
                }
            }
        }
        Ok((Anchor::Commit(id), q + 32))
    } else {
        Err(causal_malformed_at(p, with_number("unknown anchor tag ", tag)))
    }
}

impl CausalEdge {
    /// Build an edge, enforcing the edge rules.
    pub fn new(seq: u64, from: Anchor, to: Anchor, status: Status, note: String) -> (r: Result<
        CausalEdge,
        CausalError,
    >)
        ensures
            r is Ok <==> edge_ok(from@, to@, status, note@),
            r is Ok <==> from@ != to@ && sbytes(note@).len() <= 256 && (status == Status::Verified ==> (
            from matches Anchor::Commit(_)) && (to matches Anchor::Commit(_))),
            r matches Ok(e) ==> e@ == (CausalEdgeV {
                seq,
                from: from@,
                to: to@,
                status,
                note: note@,
            }),
            r matches Err(e) ==> edge_rejection(from@, to@, status, note@, e),
    {
        if anchor_eq(&from, &to) {
            return Err(CausalError::Cycle);
        }
        if note.as_str().as_bytes().len() > MAX_NOTE_BYTES {
            return Err(
                CausalError::MalformedRecord { offset: 0, message: owned("note exceeds 256 bytes") },
            );
        }
        let verified = match status {
            Status::Verified => true,
            _ => false,
        };
        let both_commits = match (&from, &to) {
            (Anchor::Commit(_), Anchor::Commit(_)) => true,
            _ => false,
        };
        if verified && !both_commits {
            return Err(CausalError::VerifiedRequiresCommits);
        }
        Ok(CausalEdge { seq, from, to, status, note })
    }

    /// Canonical encoding: seq, from, to, status code, note.
    pub fn canonical_bytes(&self) -> (r: Vec<u8>)
        ensures
            r@ == enc_edge(self@),
    {
        let mut buf: Vec<u8> = Vec::new();
        put_u64(&mut buf, self.seq);
        put_anchor(&mut buf, &self.from);
        put_anchor(&mut buf, &self.to);
        let code: u64 = match self.status {
            Status::TemporalCorrelation => 1,
            Status::Hypothesis => 2,
            Status::Verified => 3,
        };
        put_u64(&mut buf, code);
        put_str(&mut buf, self.note.as_str());
        proof {
            assert(buf@ =~= enc_edge(self@));
        }
        buf
    }

    /// Strict parse: the bytes must be exactly the canonical encoding of an
    /// edge that keeps the edge rules.
    pub fn parse(bytes: &[u8]) -> (r: Result<CausalEdge, CausalError>)
        ensures
            r matches Ok(e) ==> enc_edge(e@) == bytes@ && edge_ok(e@.from, e@.to, e@.status, e@.note)
                && anchor_ok(e@.from) && anchor_ok(e@.to),
            forall|t: CausalEdgeV| #[trigger]
                enc_edge(t) == bytes@ && anchor_ok(t.from) && anchor_ok(t.to) ==> if edge_ok(
                    t.from,
                    t.to,
                    t.status,
                    t.note,
                ) {
                    r matches Ok(e) && e@ == t
                } else {
                    r matches Err(e) && edge_rejection(t.from, t.to, t.status, t.note, e)
                },
            !(exists|t: CausalEdgeV| #[trigger] enc_edge(t) == bytes@ && anchor_ok(t.from) && anchor_ok(t.to))
                ==> (r matches Err(e) && e is MalformedRecord),
            forall|t: CausalEdgeV, k: int|
                anchor_ok(t.from) && anchor_ok(t.to) && edge_ok(t.from, t.to, t.status, t.note) && 0 <= k
                    < enc_edge(t).len() && bytes@ == #[trigger] enc_edge(t).take(k) ==> (r matches Err(e)
                    && e is MalformedRecord),
            forall|t: CausalEdgeV| #[trigger]
                is_at(bytes@, 0, enc_edge(t)) && enc_edge(t).len() < bytes@.len() && anchor_ok(t.from)
                    && anchor_ok(t.to) ==> (r matches Err(CausalError::MalformedRecord { offset, message })
                    && offset == enc_edge(t).len() && message@ == "trailing bytes"@),
    {
        let b = bytes;
        proof {
            lemma_u64_facts();
            assert forall|t: CausalEdgeV| #[trigger] enc_edge(t) == b@ implies is_at(b@, 0, enc_edge(t)) by {
                assert(b@.subrange(0, b@.len() as int) =~= b@);
            }
            assert forall|t: CausalEdgeV| #[trigger] is_at(b@, 0, enc_edge(t)) implies {
                let p1: int = 8;
                let p2: int = p1 + enc_anchor(t.from).len();
                let p3: int = p2 + enc_anchor(t.to).len();
                &&& is_at(b@, 0, enc_u64(t.seq as nat))
                &&& is_at(b@, p1, enc_anchor(t.from))
                &&& is_at(b@, p2, enc_anchor(t.to))
                &&& is_at(b@, p3, enc_u64(status_code(t.status)))
                &&& is_at(b@, p3 + 8, enc_str(t.note))
                &&& p3 + 8 + enc_str(t.note).len() == enc_edge(t).len()
            } by {
                let a1 = enc_u64(t.seq as nat);
                let a2 = a1 + enc_anchor(t.from);
                let a3 = a2 + enc_anchor(t.to);
                let a4 = a3 + enc_u64(status_code(t.status));
                assert(enc_edge(t) == a4 + enc_str(t.note));
                lemma_at_split(b@, 0, a4, enc_str(t.note));
                lemma_at_split(b@, 0, a3, enc_u64(status_code(t.status)));
                lemma_at_split(b@, 0, a2, enc_anchor(t.to));
                lemma_at_split(b@, 0, a1, enc_anchor(t.from));
            }
        }
        let (seq, p1) = match read_u64(b, 0) {
            Ok(x) => x,
            Err(e) => {
                return Err(causal_malformed(e));
            },
        };
        proof {
            assert forall|t: CausalEdgeV| #[trigger] is_at(b@, 0, enc_edge(t)) implies t.seq == seq by {
                lemma_u64_at(b@, 0, seq as nat, t.seq as nat);
            }
        }
        let (from, p2) = match read_anchor(b, p1) {
            Ok(x) => x,
            Err(e) => {
                return Err(e);
            },
        };
        let (to, p3) = match read_anchor(b, p2) {
            Ok(x) => x,
            Err(e) => {
                return Err(e);
            },
        };
        let (code, p4) = match read_u64(b, p3) {
            Ok(x) => x,
            Err(e) => {
                return Err(causal_malformed(e));
            },
        };
        proof {
            assert forall|t: CausalEdgeV| #[trigger] is_at(b@, 0, enc_edge(t)) && anchor_ok(t.from) && anchor_ok(
                t.to,
            ) implies t.from == from@ && t.to == to@ && code == status_code(t.status) by {
                assert(t.from == from@);
                assert(t.to == to@);
                lemma_u64_at(b@, p3 as int, code as nat, status_code(t.status));
            }
        }
        let status = if code == 1 {
            Status::TemporalCorrelation
        } else if code == 2 {
            Status::Hypothesis
        } else if code == 3 {
            Status::Verified
        } else {
            return Err(causal_malformed_at(p3, with_number("unknown status tag ", code)));
        };
        let (note, p5) = match read_str(b, p4) {
            Ok(x) => x,
            Err(e) => {
                proof {
                    assert forall|t: CausalEdgeV| #[trigger] is_at(b@, 0, enc_edge(t)) && anchor_ok(t.from)
                        && anchor_ok(t.to) implies false by {
                        assert(code == status_code(t.status));
                        assert(is_at(b@, p4 as int, enc_str(t.note)));
                    }
                }
                return Err(causal_malformed(e));
            },
        };
        proof {
            assert forall|t: CausalEdgeV| #[trigger] is_at(b@, 0, enc_edge(t)) && anchor_ok(t.from) && anchor_ok(
                t.to,
            ) implies t.note == note@ && t.status == status && p5 == enc_edge(t).len() by {
                assert(code == status_code(t.status));
                assert(is_at(b@, p4 as int, enc_str(t.note)));
            }
        }
        if p5 != b.len() {
            return Err(causal_malformed_at(p5, owned("trailing bytes")));
        }
        let ghost parsed = CausalEdgeV { seq, from: from@, to: to@, status, note: note@ };
        proof {
            let a1 = enc_u64(seq as nat);
            let a2 = a1 + enc_anchor(from@);
            let a3 = a2 + enc_anchor(to@);
            let a4 = a3 + enc_u64(status_code(status));
            lemma_at_split(b@, 0, a1, enc_anchor(from@));
            lemma_at_split(b@, 0, a2, enc_anchor(to@));
            lemma_at_split(b@, 0, a3, enc_u64(status_code(status)));
            lemma_at_split(b@, 0, a4, enc_str(note@));
            assert(b@.subrange(0, b@.len() as int) =~= b@);
            assert(enc_edge(parsed) == b@);
            assert(anchor_ok(parsed.from) && anchor_ok(parsed.to));
            assert forall|t: CausalEdgeV, k: int|
                anchor_ok(t.from) && anchor_ok(t.to) && edge_ok(t.from, t.to, t.status, t.note) && 0 <= k
                    < enc_edge(t).len() && b@ == #[trigger] enc_edge(t).take(k) implies false by {
                assert(is_at(enc_edge(t), 0, enc_edge(parsed)));
                assert(enc_anchor(t.from).len() <= 48 && enc_anchor(t.to).len() <= 48);
                assert(enc_edge(t).len() <= u64::MAX);
                lemma_edge_prefix_free(parsed, t);
            }
        }
        CausalEdge::new(seq, from, to, status, note)
    }
}

/// The graph's edges as `(from, to)` anchor pairs.
pub open spec fn pairs(es: Seq<CausalEdge>) -> Seq<(AnchorV, AnchorV)> {
    es.map_values(|e: CausalEdge| (e.from@, e.to@))
}

/// One step from `u` to `v`: along an edge, or also against one when
/// `both`.
pub open spec fn step(ps: Seq<(AnchorV, AnchorV)>, both: bool, u: AnchorV, v: AnchorV) -> bool {
    exists|k: int|
        0 <= k < ps.len() && ((#[trigger] ps[k].0 == u && ps[k].1 == v) || (both && ps[k].1 == u
            && ps[k].0 == v))
}

/// Positions `i` and `i + 1` of `p` are one step apart.
pub open spec fn link_at(ps: Seq<(AnchorV, AnchorV)>, both: bool, p: Seq<AnchorV>, i: int) -> bool {
    step(ps, both, p[i], p[i + 1])
}

/// `p` is a walk: consecutive anchors one step apart.
pub open spec fn is_path(ps: Seq<(AnchorV, AnchorV)>, both: bool, p: Seq<AnchorV>) -> bool {
    p.len() >= 1 && forall|i: int| 0 <= i < p.len() - 1 ==> #[trigger] link_at(ps, both, p, i)
}

/// Some walk leads from `x` to `y` (every anchor reaches itself).
pub open spec fn reaches(ps: Seq<(AnchorV, AnchorV)>, both: bool, x: AnchorV, y: AnchorV) -> bool {
    exists|p: Seq<AnchorV>| #[trigger] is_path(ps, both, p) && p[0] == x && p.last() == y
}

proof fn lemma_reach_self(ps: Seq<(AnchorV, AnchorV)>, both: bool, x: AnchorV)
    ensures
        reaches(ps, both, x, x),
{
    let p = seq![x];
    assert(is_path(ps, both, p));
}

proof fn lemma_reach_step(ps: Seq<(AnchorV, AnchorV)>, both: bool, x: AnchorV, u: AnchorV, v: AnchorV)
    requires
        reaches(ps, both, x, u),
        step(ps, both, u, v),
    ensures
        reaches(ps, both, x, v),
{
    let p = choose|p: Seq<AnchorV>| #[trigger] is_path(ps, both, p) && p[0] == x && p.last() == u;
    let q = p.push(v);
    assert forall|i: int| 0 <= i < q.len() - 1 implies #[trigger] link_at(ps, both, q, i) by {
        if i < p.len() - 1 {
            assert(link_at(ps, both, p, i));
        }
    }
    assert(is_path(ps, both, q));
}

/// A set closed under steps holds everything its members reach.
proof fn lemma_closed_reach(ps: Seq<(AnchorV, AnchorV)>, both: bool, sv: Seq<AnchorV>, p: Seq<AnchorV>)
    requires
        is_path(ps, both, p),
        sv.contains(p[0]),
        forall|u: AnchorV, v: AnchorV| sv.contains(u) && #[trigger] step(ps, both, u, v) ==> sv.contains(v),
    ensures
        sv.contains(p.last()),
    decreases p.len(),
{
    if p.len() > 1 {
        let q = p.drop_last();
        assert forall|i: int| 0 <= i < q.len() - 1 implies #[trigger] link_at(ps, both, q, i) by {
            assert(link_at(ps, both, p, i));
        }
        lemma_closed_reach(ps, both, sv, q);
        assert(link_at(ps, both, p, p.len() - 2));
    }
}

/// The views of a list of anchors.
pub open spec fn anchor_views(v: Seq<Anchor>) -> Seq<AnchorV> {
    v.map_values(|a: Anchor| a@)
}

/// Every anchor that can occur in a walk from `start`.
pub open spec fn candidates(ps: Seq<(AnchorV, AnchorV)>, start: AnchorV) -> Seq<AnchorV> {
    seq![start] + ps.map_values(|p: (AnchorV, AnchorV)| p.0) + ps.map_values(
        |p: (AnchorV, AnchorV)| p.1,
    )
}

proof fn lemma_distinct_bound(sv: Seq<AnchorV>, cands: Seq<AnchorV>)
    requires
        sv.no_duplicates(),
        forall|j: int| 0 <= j < sv.len() ==> cands.contains(#[trigger] sv[j]),
    ensures
        sv.len() <= cands.len(),
{
    sv.unique_seq_to_set();
    cands.lemma_cardinality_of_set();
    assert(sv.to_set().subset_of(cands.to_set())) by {
        assert forall|x: AnchorV| sv.to_set().contains(x) implies cands.to_set().contains(x) by {
            let j = choose|j: int| 0 <= j < sv.len() && sv[j] == x;
            assert(cands.contains(sv[j]));
        }
    }
    vstd::set_lib::lemma_len_subset(sv.to_set(), cands.to_set());
}

/// Whether a list holds an anchor.
fn holds(v: &Vec<Anchor>, a: &Anchor) -> (r: bool)
    ensures
        r == anchor_views(v@).contains(a@),
{
    let mut i: usize = 0;
    while i < v.len()
        invariant
            i <= v@.len(),
            forall|j: int| 0 <= j < i ==> v@[j]@ != a@,
        decreases v@.len() - i,
    {
        if anchor_eq(&v[i], a) {
            proof {
                assert(anchor_views(v@)[i as int] == a@);
            }
            return true;
        }
        i = i + 1;
    }
    proof {
        if anchor_views(v@).contains(a@) {
            let j = choose|j: int| 0 <= j < anchor_views(v@).len() && anchor_views(v@)[j] == a@;
            assert(v@[j]@ == a@);
        }
    }
    false
}

/// Everything reachable from `start` by steps (along edges, and against
/// them too when `both`), each anchor once, `start` first.
fn closure(edges: &Vec<CausalEdge>, start: &Anchor, both: bool) -> (r: Vec<Anchor>)
    requires
        edges@.len() < usize::MAX / 2,
    ensures
        anchor_views(r@).no_duplicates(),
        forall|y: AnchorV| anchor_views(r@).contains(y) <==> reaches(pairs(edges@), both, start@, y),
{
    let ghost ps = pairs(edges@);
    let ghost cands = candidates(ps, start@);
    let n = edges.len();
    let bound: usize = 2 * n + 1;
    let mut seen: Vec<Anchor> = Vec::new();
    seen.push(anchor_copy(start));
    proof {
        lemma_reach_self(ps, both, start@);
        assert(anchor_views(seen@) =~= seq![start@]);
        assert(cands[0] == start@);
        assert(cands.len() == bound);
    }
    let mut i: usize = 0;
    while i < seen.len()
        invariant
            ps == pairs(edges@),
            cands == candidates(ps, start@),
            cands.len() == bound,
            n == edges@.len(),
            bound == 2 * n + 1,
            i <= seen@.len() <= bound,
            1 <= seen@.len(),
            anchor_views(seen@)[0] == start@,
            anchor_views(seen@).no_duplicates(),
            forall|j: int| 0 <= j < seen@.len() ==> cands.contains(#[trigger] anchor_views(seen@)[j]),
            forall|j: int| 0 <= j < seen@.len() ==> reaches(ps, both, start@, #[trigger] anchor_views(seen@)[j]),
            forall|j: int, k: int|
                0 <= j < i && 0 <= k < n ==> (ps[k].0 == #[trigger] anchor_views(seen@)[j] ==> anchor_views(
                    seen@,
                ).contains(#[trigger] ps[k].1)),
            forall|j: int, k: int|
                0 <= j < i && 0 <= k < n && both ==> (ps[k].1 == #[trigger] anchor_views(seen@)[j] ==> anchor_views(
                    seen@,
                ).contains(#[trigger] ps[k].0)),
        decreases bound - i,
    {
        let cur = anchor_copy(&seen[i]);
        let ghost cv = cur@;
        proof {
            assert(anchor_views(seen@)[i as int] == cv);
        }
        let mut k: usize = 0;
        while k < n
            invariant
                ps == pairs(edges@),
                cands == candidates(ps, start@),
                cands.len() == bound,
                n == edges@.len(),
                bound == 2 * n + 1,
                i < seen@.len() <= bound,
                k <= n,
                cur@ == cv,
                anchor_views(seen@)[i as int] == cv,
                anchor_views(seen@)[0] == start@,
                anchor_views(seen@).no_duplicates(),
                reaches(ps, both, start@, cv),
                forall|j: int| 0 <= j < seen@.len() ==> cands.contains(#[trigger] anchor_views(seen@)[j]),
                forall|j: int| 0 <= j < seen@.len() ==> reaches(ps, both, start@, #[trigger] anchor_views(seen@)[j]),
                forall|j: int, kk: int|
                    0 <= j < i && 0 <= kk < n ==> (ps[kk].0 == #[trigger] anchor_views(seen@)[j] ==> anchor_views(
                        seen@,
                    ).contains(#[trigger] ps[kk].1)),
                forall|j: int, kk: int|
                    0 <= j < i && 0 <= kk < n && both ==> (ps[kk].1 == #[trigger] anchor_views(seen@)[j] ==> anchor_views(
                        seen@,
                    ).contains(#[trigger] ps[kk].0)),
                forall|kk: int| 0 <= kk < k ==> (#[trigger] ps[kk].0 == cv ==> anchor_views(seen@).contains(ps[kk].1)),
                forall|kk: int| 0 <= kk < k && both ==> (#[trigger] ps[kk].1 == cv ==> anchor_views(seen@).contains(ps[kk].0)),
            decreases n - k,
        {
            let e = &edges[k];
            proof {
                assert(ps[k as int] == (e.from@, e.to@));
            }
            if anchor_eq(&e.from, &cur) && !holds(&seen, &e.to) {
                let ghost before = anchor_views(seen@);
                seen.push(anchor_copy(&e.to));
                proof {
                    assert(anchor_views(seen@) =~= before.push(e.to@));
                    assert(anchor_views(seen@)[before.len() as int] == e.to@);
                    assert(anchor_views(seen@).contains(e.to@));
                    assert forall|x: AnchorV| before.contains(x) implies anchor_views(seen@).contains(x) by {
                        let j = choose|j: int| 0 <= j < before.len() && before[j] == x;
                        assert(anchor_views(seen@)[j] == x);
                    }
                    assert(step(ps, both, cv, e.to@)) by {
                        assert(ps[k as int].0 == cv && ps[k as int].1 == e.to@);
                    }
                    lemma_reach_step(ps, both, start@, cv, e.to@);
                    assert(cands.contains(e.to@)) by {
                        assert(cands[1 + n + k] == e.to@);
                    }
                    lemma_distinct_bound(anchor_views(seen@), cands);
                }
            }
            let ghost mid = anchor_views(seen@);
            proof {
                assert(ps[k as int].0 == cv ==> mid.contains(ps[k as int].1));
            }
            if both && anchor_eq(&e.to, &cur) && !holds(&seen, &e.from) {
                let ghost before = anchor_views(seen@);
                seen.push(anchor_copy(&e.from));
                proof {
                    assert(anchor_views(seen@) =~= before.push(e.from@));
                    assert(anchor_views(seen@)[before.len() as int] == e.from@);
                    assert(anchor_views(seen@).contains(e.from@));
                    assert forall|x: AnchorV| before.contains(x) implies anchor_views(seen@).contains(x) by {
                        let j = choose|j: int| 0 <= j < before.len() && before[j] == x;
                        assert(anchor_views(seen@)[j] == x);
                    }
                    assert(step(ps, both, cv, e.from@)) by {
                        assert(ps[k as int].1 == cv && ps[k as int].0 == e.from@);
                    }
                    lemma_reach_step(ps, both, start@, cv, e.from@);
                    assert(cands.contains(e.from@)) by {
                        assert(cands[1 + k] == e.from@);
                    }
                    lemma_distinct_bound(anchor_views(seen@), cands);
                }
            }
            proof {
                assert(ps[k as int].0 == cv ==> anchor_views(seen@).contains(ps[k as int].1));
                assert(both && ps[k as int].1 == cv ==> anchor_views(seen@).contains(ps[k as int].0));
            }
            k = k + 1;
        }
        i = i + 1;
    }
    proof {
        let sv = anchor_views(seen@);
        assert forall|u: AnchorV, v: AnchorV| sv.contains(u) && #[trigger] step(ps, both, u, v) implies sv.contains(v) by {
            let j = choose|j: int| 0 <= j < sv.len() && sv[j] == u;
            let k = choose|k: int|
                0 <= k < ps.len() && ((#[trigger] ps[k].0 == u && ps[k].1 == v) || (both && ps[k].1 == u
                    && ps[k].0 == v));
            if ps[k].0 == u && ps[k].1 == v {
                assert(ps[k].0 == sv[j]);
            } else {
                assert(ps[k].1 == sv[j]);
            }
        }
        assert forall|y: AnchorV| sv.contains(y) <==> reaches(ps, both, start@, y) by {
            if sv.contains(y) {
                let j = choose|j: int| 0 <= j < sv.len() && sv[j] == y;
                assert(reaches(ps, both, start@, sv[j]));
            }
            if reaches(ps, both, start@, y) {
                let p = choose|p: Seq<AnchorV>| #[trigger] is_path(ps, both, p) && p[0] == start@ && p.last() == y;
                assert(sv[0] == start@);
                assert(sv.contains(sv[0]));
                lemma_closed_reach(ps, both, sv, p);
            }
        }
    }
    seen
}

/// The order of anchors: observations before commits, observations by
/// position, commits by their bytes.
pub open spec fn anchor_lt(x: AnchorV, y: AnchorV) -> bool {
    match (x, y) {
        (AnchorV::Obs(a), AnchorV::Obs(b)) => a < b,
        (AnchorV::Obs(_), AnchorV::Commit(_)) => true,
        (AnchorV::Commit(_), AnchorV::Obs(_)) => false,
        (AnchorV::Commit(a), AnchorV::Commit(b)) => bytes_lt(a, b),
    }
}

/// The anchor order as a function value.
pub open spec fn anchor_order_fn() -> spec_fn(AnchorV, AnchorV) -> bool {
    |x: AnchorV, y: AnchorV| anchor_lt(x, y)
}

/// The anchor order is a strict total order.
pub proof fn lemma_anchor_order()
    ensures
        strict_order(anchor_order_fn()),
        total(anchor_order_fn()),
{
    assert forall|a: AnchorV| !#[trigger] (anchor_order_fn())(a, a) by {
        if let AnchorV::Commit(x) = a {
            lemma_bytes_lt_irrefl(x);
        }
    }
    assert forall|a: AnchorV, b: AnchorV, c: AnchorV|
        #[trigger] (anchor_order_fn())(a, b) && #[trigger] (anchor_order_fn())(b, c) implies (anchor_order_fn())(a, c) by {
        if let (AnchorV::Commit(x), AnchorV::Commit(y), AnchorV::Commit(z)) = (a, b, c) {
            lemma_bytes_lt_trans(x, y, z);
        }
    }
    assert forall|a: AnchorV, b: AnchorV| a != b implies #[trigger] (anchor_order_fn())(a, b) || (anchor_order_fn())(b, a) by {
        if let (AnchorV::Commit(x), AnchorV::Commit(y)) = (a, b) {
            lemma_bytes_lt_total(x, y);
        }
    }
}

/// Whether `a` comes before `b` in the anchor order.
fn anchor_less(a: &Anchor, b: &Anchor) -> (r: bool)
    ensures
        r == anchor_lt(a@, b@),
{
    match (a, b) {
        (Anchor::Observation(x), Anchor::Observation(y)) => *x < *y,
        (Anchor::Observation(_), Anchor::Commit(_)) => true,
        (Anchor::Commit(_), Anchor::Observation(_)) => false,
        (Anchor::Commit(x), Anchor::Commit(y)) => match bytes_compare(x, y) {
            Compared::Less => true,
            _ => false,
        },
    }
}

/// The anchors of a list without duplicates, in ascending order.
fn sort_anchors(v: Vec<Anchor>) -> (r: Vec<Anchor>)
    requires
        anchor_views(v@).no_duplicates(),
    ensures
        sorted_by(anchor_views(r@), anchor_order_fn()),
        forall|y: AnchorV| anchor_views(r@).contains(y) <==> anchor_views(v@).contains(y),
{
    proof {
        lemma_anchor_order();
    }
    let mut out: Vec<Anchor> = Vec::new();
    let mut i: usize = 0;
    while i < v.len()
        invariant
            strict_order(anchor_order_fn()),
            total(anchor_order_fn()),
            i <= v@.len(),
            anchor_views(v@).no_duplicates(),
            sorted_by(anchor_views(out@), anchor_order_fn()),
            forall|y: AnchorV| anchor_views(out@).contains(y) <==> anchor_views(v@).take(i as int).contains(y),
        decreases v@.len() - i,
    {
        let x = anchor_copy(&v[i]);
        let ghost ov = anchor_views(out@);
        let mut p: usize = 0;
        while p < out.len() && anchor_less(&out[p], &x)
            invariant
                p <= out@.len(),
                ov == anchor_views(out@),
                forall|j: int| 0 <= j < p ==> anchor_lt(#[trigger] ov[j], x@),
            decreases out@.len() - p,
        {
            proof {
                assert(ov[p as int] == out@[p as int]@);
            }
            p = p + 1;
        }
        proof {
            assert(!anchor_views(v@).take(i as int).contains(x@)) by {
                let t0 = anchor_views(v@).take(i as int);
                if t0.contains(x@) {
                    let j = choose|j: int| 0 <= j < t0.len() && t0[j] == x@;
                    assert(anchor_views(v@)[j] == anchor_views(v@)[i as int]);
                }
            }
            assert(!ov.contains(x@));
            if p < out@.len() {
                assert(ov[p as int] == out@[p as int]@);
                assert(!anchor_lt(ov[p as int], x@));
                assert(ov[p as int] != x@) by {
                    assert(ov.contains(ov[p as int]));
                }
                assert((anchor_order_fn())(ov[p as int], x@) || (anchor_order_fn())(x@, ov[p as int]));
            }
        }
        out.insert(p, x);
        proof {
            let nv = anchor_views(out@);
            assert(nv =~= ov.insert(p as int, x@));
            assert forall|a: int, b: int| 0 <= a < b < nv.len() implies (anchor_order_fn())(#[trigger] nv[a], #[trigger] nv[b]) by {
                if b < p {
                    assert(nv[a] == ov[a] && nv[b] == ov[b]);
                } else if b == p {
                    assert(nv[a] == ov[a]);
                } else if a < p {
                    assert(nv[a] == ov[a] && nv[b] == ov[b - 1]);
                    assert((anchor_order_fn())(ov[a], x@));
                    assert((anchor_order_fn())(x@, ov[p as int]));
                    if b - 1 > p {
                        assert((anchor_order_fn())(ov[p as int], ov[b - 1]));
                    }
                } else if a == p {
                    assert(nv[b] == ov[b - 1]);
                    if b - 1 > p {
                        assert((anchor_order_fn())(ov[p as int], ov[b - 1]));
                    }
                } else {
                    assert(nv[a] == ov[a - 1] && nv[b] == ov[b - 1]);
                }
            }
            assert(anchor_views(v@).take(i + 1) =~= anchor_views(v@).take(i as int).push(x@));
            assert forall|y: AnchorV| nv.contains(y) <==> anchor_views(v@).take(i + 1).contains(y) by {
                let t1 = anchor_views(v@).take(i + 1);
                let t0 = anchor_views(v@).take(i as int);
                if nv.contains(y) {
                    let j = choose|j: int| 0 <= j < nv.len() && nv[j] == y;
                    if j == p {
                        assert(t1[i as int] == y);
                    } else {
                        if j < p {
                            assert(ov[j] == y);
                        } else {
                            assert(ov[j - 1] == y);
                        }
                        assert(ov.contains(y));
                        assert(t0.contains(y));
                        let k = choose|k: int| 0 <= k < t0.len() && t0[k] == y;
                        assert(t1[k] == y);
                    }
                }
                if anchor_views(v@).take(i + 1).contains(y) {
                    if y == x@ {
                        assert(nv[p as int] == y);
                    } else {
                        let t1 = anchor_views(v@).take(i + 1);
                        assert(anchor_views(v@).take(i as int).contains(y)) by {
                            let j = choose|j: int| 0 <= j < t1.len() && t1[j] == y;
                            assert(j < i);
                            assert(anchor_views(v@).take(i as int)[j] == y);
                        }
                        assert(ov.contains(y));
                        let j = choose|j: int| 0 <= j < ov.len() && ov[j] == y;
                        if j < p {
                            assert(nv[j] == y);
                        } else {
                            assert(nv[j + 1] == y);
                        }
                    }
                }
            }
        }
        i = i + 1;
    }
    proof {
        assert(anchor_views(v@).take(v@.len() as int) =~= anchor_views(v@));
    }
    out
}

/// The causal DAG: the validated edges, in insertion order.
pub struct CausalGraph {
    edges: Vec<CausalEdge>,
}

impl CausalGraph {
    /// The edges held, in insertion order.
    pub closed spec fn records(&self) -> Seq<CausalEdge> {
        self.edges@
    }

    /// A graph over already-validated edges.
    pub fn new(edges: Vec<CausalEdge>) -> (r: CausalGraph)
        ensures
            r.records() == edges@,
    {
        CausalGraph { edges }
    }

    /// The edges, in insertion order.
    pub fn edges(&self) -> (r: &[CausalEdge])
        ensures
            r@ == self.records(),
    {
        self.edges.as_slice()
    }

    /// Append an edge the caller has checked.
    pub fn insert(&mut self, edge: CausalEdge)
        ensures
            final(self).records() == old(self).records().push(edge),
    {
        self.edges.push(edge);
    }

    /// Validate a new edge `from -> to`: the edge rules, both anchors
    /// known to `anchor_exists` (`from` asked first), and no walk from `to`
    /// back to `from` (the edge would close a cycle).
    pub fn check_insert(
        &self,
        from: &Anchor,
        to: &Anchor,
        status: Status,
        anchor_exists: impl Fn(&Anchor) -> bool,
    ) -> (r: Result<(), CausalError>)
        requires
            self.records().len() < usize::MAX / 2,
            forall|a: &Anchor| anchor_exists.requires((a,)),
        ensures
            !edge_ok(from@, to@, status, Seq::empty()) ==> (r matches Err(e) && edge_rejection(
                from@,
                to@,
                status,
                Seq::empty(),
                e,
            )),
            r is Ok ==> edge_ok(from@, to@, status, Seq::empty()) && anchor_exists.ensures((from,), true)
                && anchor_exists.ensures((to,), true) && !reaches(pairs(self.records()), false, to@, from@),
            r matches Err(CausalError::DanglingAnchor { anchor }) ==> (anchor_exists.ensures(
                (from,),
                false,
            ) && anchor_text(from@, anchor@)) || (anchor_exists.ensures((from,), true)
                && anchor_exists.ensures((to,), false) && anchor_text(to@, anchor@)),
            edge_ok(from@, to@, status, Seq::empty()) && (forall|b: bool|
                anchor_exists.ensures((from,), b) ==> !b) ==> (r matches Err(
                CausalError::DanglingAnchor { anchor },
            ) && anchor_text(from@, anchor@)),
            edge_ok(from@, to@, status, Seq::empty()) && (forall|b: bool|
                anchor_exists.ensures((from,), b) ==> b) && (forall|b: bool|
                anchor_exists.ensures((to,), b) ==> b) && !reaches(pairs(self.records()), false, to@, from@)
                ==> r is Ok,
            edge_ok(from@, to@, status, Seq::empty()) && (forall|b: bool|
                anchor_exists.ensures((from,), b) ==> b) && (forall|b: bool|
                anchor_exists.ensures((to,), b) ==> !b) ==> (r matches Err(
                CausalError::DanglingAnchor { anchor },
            ) && anchor_text(to@, anchor@)),
            r is Err ==> !edge_ok(from@, to@, status, Seq::empty()) || anchor_exists.ensures((from,), false)
                || anchor_exists.ensures((to,), false) || reaches(pairs(self.records()), false, to@, from@),
            r matches Err(CausalError::Cycle) ==> from@ == to@ || reaches(
                pairs(self.records()),
                false,
                to@,
                from@,
            ),
            edge_ok(from@, to@, status, Seq::empty()) && reaches(pairs(self.records()), false, to@, from@)
                ==> r is Err,
            edge_ok(from@, to@, status, Seq::empty()) && (forall|b: bool|
                anchor_exists.ensures((from,), b) ==> b) && (forall|b: bool|
                anchor_exists.ensures((to,), b) ==> b) && reaches(pairs(self.records()), false, to@, from@)
                ==> r == Err::<(), CausalError>(CausalError::Cycle),
            r is Ok && acyclic(pairs(self.records())) ==> acyclic(pairs(self.records()).push((from@, to@))),
    {
        let empty = String::new();
        proof {
            assert(empty@ == Seq::<char>::empty());
            assert(sbytes(Seq::<char>::empty()) =~= Seq::<u8>::empty());
        }
        match CausalEdge::new(0, anchor_copy(from), anchor_copy(to), status, empty) {
            Ok(_) => {},
            Err(e) => {
                return Err(e);
            },
        }
        if !anchor_exists(from) {
            return Err(CausalError::DanglingAnchor { anchor: from.text() });
        }
        if !anchor_exists(to) {
            return Err(CausalError::DanglingAnchor { anchor: to.text() });
        }
        let reach = closure(&self.edges, to, false);
        if holds(&reach, from) {
            return Err(CausalError::Cycle);
        }
        proof {
            if acyclic(pairs(self.records())) {
                law_insert_keeps_acyclic(pairs(self.records()), from@, to@);
            }
        }
        Ok(())
    }

    /// The connected component around `anchor`, edges taken both ways,
    /// each anchor once, in ascending anchor order.
    pub fn incident_around(&self, anchor: &Anchor) -> (r: Vec<Anchor>)
        requires
            self.records().len() < usize::MAX / 2,
        ensures
            anchor_views(r@) == sorted_enum(
                Set::new(|y: AnchorV| reaches(pairs(self.records()), true, anchor@, y)),
                anchor_order_fn(),
            ),
            sorted_by(anchor_views(r@), anchor_order_fn()),
            anchor_views(r@).no_duplicates(),
            forall|y: AnchorV| anchor_views(r@).contains(y) <==> reaches(pairs(self.records()), true, anchor@, y),
    {
        let around = closure(&self.edges, anchor, true);
        let r = sort_anchors(around);
        proof {
            lemma_anchor_order();
            let d = Set::new(|y: AnchorV| reaches(pairs(self.records()), true, anchor@, y));
            assert(enumerates(anchor_views(r@), d));
            lemma_sorted_enum(anchor_views(r@), d, anchor_order_fn());
            let rv = anchor_views(r@);
            assert forall|a: int, b: int| 0 <= a < b < rv.len() implies rv[a] != rv[b] by {
                assert((anchor_order_fn())(rv[a], rv[b]));
            }
        }
        r
    }
}

/// The edges a graph holding `rs` holds after `insert` of each of `es`, in
/// order.
pub open spec fn after_inserts(rs: Seq<CausalEdge>, es: Seq<CausalEdge>) -> Seq<CausalEdge>
    decreases es.len(),
{
    if es.len() == 0 {
        rs
    } else {
        after_inserts(rs.push(es[0]), es.drop_first())
    }
}

/// A graph made by `CausalGraph::new(es)` holds the edges that inserting
/// each of `es` in turn into an empty graph gives, so the two answer every
/// query (`edges`, `check_insert`, `incident_around`) alike: each of those
/// is stated over the held edges alone.
pub proof fn law_new_is_successive_inserts(es: Seq<CausalEdge>)
    ensures
        after_inserts(Seq::empty(), es) == es,
{
    lemma_after_inserts(Seq::empty(), es);
    assert(Seq::<CausalEdge>::empty() + es =~= es);
}

proof fn lemma_after_inserts(rs: Seq<CausalEdge>, es: Seq<CausalEdge>)
    ensures
        after_inserts(rs, es) == rs + es,
    decreases es.len(),
{
    if es.len() == 0 {
        assert(rs + es =~= rs);
    } else {
        lemma_after_inserts(rs.push(es[0]), es.drop_first());
        assert(rs.push(es[0]) + es.drop_first() =~= rs + es);
    }
}

/// Whether an anchor names something that exists: an observation position
/// below the log's length, or a commit `commit_exists` knows.
pub fn anchor_exists(anchor: &Anchor, obs_count: u64, commit_exists: impl Fn(&[u8; 32]) -> bool) -> (r: bool)
    requires
        forall|id: &[u8; 32]| commit_exists.requires((id,)),
    ensures
        match anchor {
            Anchor::Observation(seq) => r == (*seq < obs_count),
            Anchor::Commit(id) => commit_exists.ensures((id,), r),
        },
{
    match anchor {
        Anchor::Observation(seq) => *seq < obs_count,
        Anchor::Commit(id) => commit_exists(id),
    }
}

/// No walk of one or more edges leads from an anchor back to itself.
pub open spec fn acyclic(ps: Seq<(AnchorV, AnchorV)>) -> bool {
    forall|p: Seq<AnchorV>| #[trigger] is_path(ps, false, p) && p.len() >= 2 ==> p[0] != p.last()
}

/// Reachability is transitive.
pub proof fn lemma_reach_trans(ps: Seq<(AnchorV, AnchorV)>, both: bool, x: AnchorV, y: AnchorV, q: Seq<AnchorV>)
    requires
        reaches(ps, both, x, y),
        is_path(ps, both, q),
        q[0] == y,
    ensures
        reaches(ps, both, x, q.last()),
    decreases q.len(),
{
    if q.len() > 1 {
        let r = q.drop_last();
        assert forall|i: int| 0 <= i < r.len() - 1 implies #[trigger] link_at(ps, both, r, i) by {
            assert(link_at(ps, both, q, i));
        }
        lemma_reach_trans(ps, both, x, y, r);
        assert(link_at(ps, both, q, q.len() - 2));
        lemma_reach_step(ps, both, x, r.last(), q.last());
    }
}

/// A directed step after adding `(from, to)` is an old step or the new edge.
proof fn lemma_step_push(ps: Seq<(AnchorV, AnchorV)>, from: AnchorV, to: AnchorV, u: AnchorV, v: AnchorV)
    requires
        step(ps.push((from, to)), false, u, v),
    ensures
        step(ps, false, u, v) || (u == from && v == to),
{
    let qs = ps.push((from, to));
    let k = choose|k: int| 0 <= k < qs.len() && ((#[trigger] qs[k].0 == u && qs[k].1 == v) || (false
        && qs[k].1 == u && qs[k].0 == v));
    if k < ps.len() {
        assert(ps[k] == qs[k]);
    }
}

/// A walk after adding `(from, to)` is an old walk, or it leaves its start
/// to reach `from` and then goes from `to` to its end over old edges.
proof fn lemma_walk_split(ps: Seq<(AnchorV, AnchorV)>, from: AnchorV, to: AnchorV, q: Seq<AnchorV>)
    requires
        is_path(ps.push((from, to)), false, q),
    ensures
        is_path(ps, false, q) || (reaches(ps, false, q[0], from) && reaches(ps, false, to, q.last())),
    decreases q.len(),
{
    let qs = ps.push((from, to));
    if q.len() > 1 {
        let r = q.drop_last();
        assert forall|i: int| 0 <= i < r.len() - 1 implies #[trigger] link_at(qs, false, r, i) by {
            assert(link_at(qs, false, q, i));
        }
        lemma_walk_split(ps, from, to, r);
        let w = r.last();
        let v = q.last();
        assert(link_at(qs, false, q, q.len() - 2));
        lemma_step_push(ps, from, to, w, v);
        if is_path(ps, false, r) {
            if step(ps, false, w, v) {
                assert forall|i: int| 0 <= i < q.len() - 1 implies #[trigger] link_at(ps, false, q, i) by {
                    if i < r.len() - 1 {
                        assert(link_at(ps, false, r, i));
                    }
                }
            } else {
                assert(reaches(ps, false, q[0], from)) by {
                    assert(r[0] == q[0]);
                }
                lemma_reach_self(ps, false, to);
            }
        } else {
            if step(ps, false, w, v) {
                lemma_reach_step(ps, false, to, w, v);
            } else {
                lemma_reach_self(ps, false, to);
            }
        }
    }
}

/// Law: adding an edge `from -> to` between different anchors, when no
/// walk leads from `to` back to `from`, keeps an acyclic graph acyclic;
/// so a graph grown only by edges `check_insert` accepted stays a DAG.
pub proof fn law_insert_keeps_acyclic(ps: Seq<(AnchorV, AnchorV)>, from: AnchorV, to: AnchorV)
    requires
        acyclic(ps),
        from != to,
        !reaches(ps, false, to, from),
    ensures
        acyclic(ps.push((from, to))),
{
    let qs = ps.push((from, to));
    assert forall|p: Seq<AnchorV>| #[trigger] is_path(qs, false, p) && p.len() >= 2 implies p[0] != p.last() by {
        lemma_walk_split(ps, from, to, p);
        if !is_path(ps, false, p) && p[0] == p.last() {
            let z = choose|z: Seq<AnchorV>| #[trigger] is_path(ps, false, z) && z[0] == p[0] && z.last() == from;
            lemma_reach_trans(ps, false, to, p.last(), z);
        }
    }
}

/// An edge the log may hold: well-formed anchors and the edge rules.
pub open spec fn edge_acceptable(e: CausalEdgeV) -> bool {
    anchor_ok(e.from) && anchor_ok(e.to) && edge_ok(e.from, e.to, e.status, e.note)
}

/// The bytes of a causal log holding the edges in order.
pub open spec fn edge_log(os: Seq<CausalEdgeV>) -> Seq<u8> {
    concat(os.map_values(|o: CausalEdgeV| frame(enc_edge(o))))
}

/// The views of a list of edges.
pub open spec fn edge_views(v: Seq<CausalEdge>) -> Seq<CausalEdgeV> {
    v.map_values(|o: CausalEdge| o@)
}

/// The frame of one edge, to append to the log.
pub fn frame_edge(o: &CausalEdge) -> (r: Vec<u8>)
    ensures
        r@ == frame(enc_edge(o@)),
{
    let payload = o.canonical_bytes();
    let mut out: Vec<u8> = Vec::new();
    put_u64(&mut out, payload.len() as u64);
    let ghost start = out@;
    let mut i: usize = 0;
    while i < payload.len()
        invariant
            i <= payload@.len(),
            out@ == start + payload@.take(i as int),
        decreases payload@.len() - i,
    {
        out.push(payload[i]);
        proof {
            assert(payload@.take(i + 1) =~= payload@.take(i as int).push(payload@[i as int]));
        }
        i = i + 1;
    }
    proof {
        assert(payload@.take(payload@.len() as int) =~= payload@);
    }
    out
}

/// After `k` records read up to `pos`, the next frame of any log that
/// matches the bytes stands at `pos`.
proof fn lemma_next_edge_frame(b: Seq<u8>, os: Seq<CausalEdgeV>, done: Seq<CausalEdgeV>, pos: int)
    requires
        edge_log(os) == b,
        done == os.take(done.len() as int),
        done.len() < os.len(),
        pos == edge_log(done).len(),
    ensures
        is_at(b, pos, frame(enc_edge(os[done.len() as int]))),
        is_at(b, pos, enc_u64(enc_edge(os[done.len() as int]).len())),
        is_at(b, pos + 8, enc_edge(os[done.len() as int])),
        pos + 8 + enc_edge(os[done.len() as int]).len() <= b.len(),
{
    let k = done.len() as int;
    let parts = os.map_values(|o: CausalEdgeV| frame(enc_edge(o)));
    assert(parts.take(k) =~= done.map_values(|o: CausalEdgeV| frame(enc_edge(o))));
    assert(b.subrange(0, b.len() as int) =~= b);
    lemma_part_at(b, 0, parts, k);
    lemma_u64_facts();
    let x = enc_edge(os[k]);
    lemma_at_split(b, pos, enc_u64(x.len()), x);
}

/// Appending a frame to a log prefix found in `b` extends the prefix.
proof fn lemma_edge_log_push(b: Seq<u8>, done: Seq<CausalEdgeV>, o: CausalEdgeV, pos: int)
    requires
        is_at(b, 0, edge_log(done)),
        pos == edge_log(done).len(),
        is_at(b, pos, frame(enc_edge(o))),
    ensures
        is_at(b, 0, edge_log(done.push(o))),
        edge_log(done.push(o)).len() == pos + frame(enc_edge(o)).len(),
{
    let old_parts = done.map_values(|x: CausalEdgeV| frame(enc_edge(x)));
    let new_parts = done.push(o).map_values(|x: CausalEdgeV| frame(enc_edge(x)));
    assert(new_parts =~= old_parts.push(frame(enc_edge(o))));
    lemma_concat_push(old_parts, frame(enc_edge(o)));
    lemma_at_split(b, 0, edge_log(done), frame(enc_edge(o)));
}

/// Some frame of `b` holds a well-formed edge encoding that breaks the
/// edge rules, and `e` is the rejection those rules give.
pub open spec fn frames_rejected_edge(b: Seq<u8>, e: CausalError) -> bool {
    exists|t: CausalEdgeV, i: int|
        #[trigger] is_at(b, i, frame(enc_edge(t))) && anchor_ok(t.from) && anchor_ok(t.to) && !edge_ok(
            t.from,
            t.to,
            t.status,
            t.note,
        ) && edge_rejection(t.from, t.to, t.status, t.note, e)
}

/// Read a whole causal log strictly, in stored order: every frame
/// must hold exactly one acceptable edge, and nothing may follow the
/// last frame.
#[verifier::rlimit(40)]
pub fn decode_edges(bytes: &[u8]) -> (r: Result<Vec<CausalEdge>, CausalError>)
    ensures
        r matches Ok(v) ==> edge_log(edge_views(v@)) == bytes@ && forall|i: int| 0 <= i < v@.len() ==> edge_acceptable(#[trigger] v@[i]@),
        forall|os: Seq<CausalEdgeV>| #[trigger] edge_log(os) == bytes@ && (forall|i: int| 0 <= i < os.len() ==> edge_acceptable(#[trigger] os[i])) ==> (r matches Ok(v) && edge_views(v@) == os),
        r matches Err(e) ==> e is MalformedRecord || frames_rejected_edge(bytes@, e),
{
    let b = bytes;
    let mut out: Vec<CausalEdge> = Vec::new();
    let mut pos: usize = 0;
    proof {
        lemma_u64_facts();
        assert(b@.len() == b.len());
        assert(edge_views(out@) =~= Seq::<CausalEdgeV>::empty());
        assert(edge_log(Seq::<CausalEdgeV>::empty()) =~= Seq::<u8>::empty());
        assert(b@.subrange(0, 0) =~= Seq::<u8>::empty());
    }
    while pos < b.len()
        invariant
            b@ == bytes@,
            b@.len() == b.len(),
            pos <= b@.len(),
            is_at(b@, 0, edge_log(edge_views(out@))),
            pos == edge_log(edge_views(out@)).len(),
            forall|i: int| 0 <= i < out@.len() ==> edge_acceptable(#[trigger] out@[i]@),
            forall|os: Seq<CausalEdgeV>| #[trigger] edge_log(os) == b@ && (forall|i: int| 0 <= i < os.len() ==> edge_acceptable(#[trigger] os[i])) ==> out@.len() < os.len() + 1 && edge_views(out@) == os.take(out@.len() as int),
        decreases b@.len() - pos,
    {
        let ghost k = out@.len();
        let ghost done = edge_views(out@);
        proof {
            assert forall|os: Seq<CausalEdgeV>| #[trigger] edge_log(os) == b@ && (forall|i: int| 0 <= i < os.len() ==> edge_acceptable(#[trigger] os[i])) implies k < os.len() by {
                if k >= os.len() {
                    assert(os.take(k as int) =~= os);
                    assert(pos == b@.len());
                }
            }
        }
        if b.len() - pos < 8 {
            proof {
                assert forall|os: Seq<CausalEdgeV>| #[trigger] edge_log(os) == b@ && (forall|i: int| 0 <= i < os.len() ==> edge_acceptable(#[trigger] os[i])) implies false by {
                    lemma_next_edge_frame(b@, os, done, pos as int);
                }
            }
            return Err(CausalError::MalformedRecord { offset: pos, message: owned("truncated frame length") });
        }
        let (len, p) = match read_u64(b, pos) {
            Ok(x) => x,
            Err(e) => {
                return Err(causal_malformed(e));
            },
        };
        if len > (b.len() - p) as u64 {
            proof {
                assert forall|os: Seq<CausalEdgeV>| #[trigger] edge_log(os) == b@ && (forall|i: int| 0 <= i < os.len() ==> edge_acceptable(#[trigger] os[i])) implies false by {
                    lemma_next_edge_frame(b@, os, done, pos as int);
                    let x = enc_edge(os[k as int]);
                    lemma_u64_at(b@, pos as int, len as nat, x.len());
                }
            }
            return Err(CausalError::MalformedRecord { offset: p, message: owned("frame exceeds file size") });
        }
        let n = len as usize;
        let payload = vstd::slice::slice_subrange(b, p, p + n);
        let o = match CausalEdge::parse(payload) {
            Ok(o) => o,
            Err(e) => {
                proof {
                    assert forall|os: Seq<CausalEdgeV>| #[trigger] edge_log(os) == b@ && (forall|i: int| 0 <= i < os.len() ==> edge_acceptable(#[trigger] os[i])) implies false by {
                        lemma_next_edge_frame(b@, os, done, pos as int);
                        let x = enc_edge(os[k as int]);
                        lemma_u64_at(b@, pos as int, len as nat, x.len());
                        assert(payload@ =~= x);
                        assert(edge_acceptable(os[k as int]));
                    }
                    if !(e is MalformedRecord) {
                        let t = choose|t: CausalEdgeV| #[trigger] enc_edge(t) == payload@ && anchor_ok(t.from)
                            && anchor_ok(t.to);
                        lemma_u64_facts();
                        assert(payload@ == b@.subrange(p as int, p + n));
                        assert(is_at(b@, p as int, enc_edge(t)));
                        assert(enc_edge(t).len() == n);
                        lemma_at_split(b@, pos as int, enc_u64(n as nat), enc_edge(t));
                        assert(is_at(b@, pos as int, frame(enc_edge(t))));
                        assert(frames_rejected_edge(b@, e));
                    }
                }
                return Err(e);
            },
        };
        let ghost before = out@;
        out.push(o);
        proof {
            lemma_u64_facts();
            assert(payload@ == b@.subrange(p as int, p + n));
            assert(enc_edge(o@) == payload@);
            assert(is_at(b@, p as int, payload@));
            lemma_at_split(b@, pos as int, enc_u64(n as nat), payload@);
            assert(is_at(b@, pos as int, frame(enc_edge(o@))));
            lemma_edge_log_push(b@, done, o@, pos as int);
            assert(edge_views(out@) =~= done.push(o@));
            assert forall|i: int| 0 <= i < out@.len() implies edge_acceptable(#[trigger] out@[i]@) by {
                if i < before.len() {
                    assert(out@[i] == before[i]);
                }
            }
            assert forall|os: Seq<CausalEdgeV>| #[trigger] edge_log(os) == b@ && (forall|i: int| 0 <= i < os.len() ==> edge_acceptable(#[trigger] os[i])) implies out@.len() < os.len() + 1 && edge_views(out@) == os.take(out@.len() as int) by {
                lemma_next_edge_frame(b@, os, done, pos as int);
                let x = enc_edge(os[k as int]);
                lemma_u64_at(b@, pos as int, len as nat, x.len());
                assert(payload@ =~= x);
                assert(edge_acceptable(os[k as int]));
                assert(o@ == os[k as int]);
                assert(os.take(k as int + 1) =~= os.take(k as int).push(os[k as int]));
            }
        }
        pos = p + n;
    }
    proof {
        assert forall|os: Seq<CausalEdgeV>| #[trigger] edge_log(os) == b@ && (forall|i: int| 0 <= i < os.len() ==> edge_acceptable(#[trigger] os[i])) implies edge_views(out@) == os by {
            let parts = os.map_values(|o: CausalEdgeV| frame(enc_edge(o)));
            let k = out@.len();
            if k < os.len() {
                lemma_next_edge_frame(b@, os, edge_views(out@), pos as int);
            }
            assert(os.take(os.len() as int) =~= os);
        }
        assert(b@.subrange(0, b@.len() as int) =~= b@);
    }
    Ok(out)
}

/// The (from, to) pairs of a list of edge views.
pub open spec fn view_pairs(os: Seq<CausalEdgeV>) -> Seq<(AnchorV, AnchorV)> {
    os.map_values(|o: CausalEdgeV| (o.from, o.to))
}

proof fn lemma_view_pairs(es: Seq<CausalEdge>)
    ensures
        view_pairs(edge_views(es)) == pairs(es),
{
    assert(view_pairs(edge_views(es)) =~= pairs(es));
}

/// Edges that each, in turn, join two different anchors and close no
/// cycle with the edges before them.
pub open spec fn grows_acyclic(os: Seq<CausalEdgeV>) -> bool
    decreases os.len(),
{
    if os.len() == 0 {
        true
    } else {
        let e = os.last();
        grows_acyclic(os.drop_last()) && e.from != e.to && !reaches(
            view_pairs(os.drop_last()),
            false,
            e.to,
            e.from,
        )
    }
}

/// Edges grown one by one without closing a cycle form a DAG.
pub proof fn law_grown_edges_are_acyclic(os: Seq<CausalEdgeV>)
    requires
        grows_acyclic(os),
    ensures
        acyclic(view_pairs(os)),
    decreases os.len(),
{
    if os.len() == 0 {
        assert forall|p: Seq<AnchorV>| #[trigger] is_path(view_pairs(os), false, p) && p.len() >= 2 implies p[0] != p.last() by {
            assert(link_at(view_pairs(os), false, p, 0));
        }
    } else {
        law_grown_edges_are_acyclic(os.drop_last());
        let e = os.last();
        assert(view_pairs(os) =~= view_pairs(os.drop_last()).push((e.from, e.to)));
        law_insert_keeps_acyclic(view_pairs(os.drop_last()), e.from, e.to);
    }
}

/// A sequence that grows acyclic has every prefix growing acyclic.
proof fn lemma_grows_prefix(os: Seq<CausalEdgeV>, k: int)
    requires
        0 <= k <= os.len(),
        grows_acyclic(os),
    ensures
        grows_acyclic(os.take(k)),
    decreases os.len() - k,
{
    if k < os.len() {
        lemma_grows_prefix(os.drop_last(), k);
        assert(os.drop_last().take(k) =~= os.take(k));
    } else {
        assert(os.take(k) =~= os);
    }
}

impl CausalGraph {
    /// Rebuild a graph from stored edges, in order, asserting again that
    /// each closes no cycle: the first that would is refused.
    pub fn from_edges(edges: Vec<CausalEdge>) -> (r: Result<CausalGraph, CausalError>)
        requires
            edges@.len() < usize::MAX / 2,
        ensures
            r is Ok <==> grows_acyclic(edge_views(edges@)),
            r matches Ok(g) ==> g.records() == edges@ && acyclic(pairs(edges@)),
            r matches Err(e) ==> e == CausalError::Cycle,
    {
        let ghost os = edge_views(edges@);
        let mut kept: Vec<CausalEdge> = Vec::new();
        let mut i: usize = 0;
        while i < edges.len()
            invariant
                os == edge_views(edges@),
                edges@.len() < usize::MAX / 2,
                i <= edges@.len(),
                kept@.len() == i,
                pairs(kept@) == view_pairs(os.take(i as int)),
                grows_acyclic(os.take(i as int)),
            decreases edges@.len() - i,
        {
            let e = &edges[i];
            proof {
                assert(os.take(i + 1).drop_last() =~= os.take(i as int));
                assert(os.take(i + 1).last() == edges@[i as int]@);
            }
            if anchor_eq(&e.from, &e.to) {
                proof {
                    if grows_acyclic(os) {
                        lemma_grows_prefix(os, i + 1);
                    }
                }
                return Err(CausalError::Cycle);
            }
            let reach = closure(&kept, &e.to, false);
            if holds(&reach, &e.from) {
                proof {
                    if grows_acyclic(os) {
                        lemma_grows_prefix(os, i + 1);
                    }
                }
                return Err(CausalError::Cycle);
            }
            let step = CausalEdge {
                seq: e.seq,
                from: anchor_copy(&e.from),
                to: anchor_copy(&e.to),
                status: e.status,
                note: String::new(),
            };
            let ghost before = kept@;
            kept.push(step);
            proof {
                assert(view_pairs(os.take(i + 1)) =~= view_pairs(os.take(i as int)).push(
                    (edges@[i as int].from@, edges@[i as int].to@),
                ));
                assert(pairs(kept@) =~= pairs(before).push((step.from@, step.to@)));
            }
            i = i + 1;
        }
        proof {
            assert(os.take(edges@.len() as int) =~= os);
            law_grown_edges_are_acyclic(os);
            lemma_view_pairs(edges@);
        }
        Ok(CausalGraph { edges })
    }
}

/// Read a causal log and rebuild its graph, asserting acyclicity again:
/// a log that does not decode is refused as `decode_edges` refuses it,
/// and one whose edges, taken in order, would close a cycle gives
/// `Cycle`.
pub fn load_graph(bytes: &[u8]) -> (r: Result<CausalGraph, CausalError>)
    ensures
        r matches Ok(g) ==> edge_log(edge_views(g.records())) == bytes@
            && (forall|i: int| 0 <= i < g.records().len() ==> edge_acceptable(#[trigger] g.records()[i]@))
            && grows_acyclic(edge_views(g.records())) && acyclic(pairs(g.records())),
        forall|os: Seq<CausalEdgeV>| #[trigger] edge_log(os) == bytes@ && (forall|i: int| 0 <= i < os.len() ==> edge_acceptable(#[trigger] os[i])) ==> ((r is Ok <==> grows_acyclic(os))
            && (r is Err ==> r == Err::<CausalGraph, CausalError>(CausalError::Cycle))),
        r matches Err(e) ==> e is MalformedRecord || e == CausalError::Cycle || frames_rejected_edge(bytes@, e),
{
    let blen = bytes.len();
    let edges = match decode_edges(bytes) {
        Ok(v) => v,
        Err(e) => {
            return Err(e);
        },
    };
    proof {
        assert(bytes@.len() == blen);
        let parts = edge_views(edges@).map_values(|o: CausalEdgeV| frame(enc_edge(o)));
        assert forall|i: int| 0 <= i < parts.len() implies (#[trigger] parts[i]).len() >= 8 by {
            lemma_u64_facts();
        }
        lemma_concat_len_at_least(parts, 8);
    }
    CausalGraph::from_edges(edges)
}

} // verus!
