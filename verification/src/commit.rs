//! Commit records: immutable, canonical, content-addressed. A record holds
//! the state it introduces, its parents, the operations that produced the
//! state, the message and the verification summary at commit time. Its
//! identity is SHA-256 over its canonical encoding.
use vstd::prelude::*;
use crate::text::{owned, sbytes};
use crate::model::{Endpoint, Metadata, VerificationSummary, push_str};
use crate::transition::Operation;
use crate::merge::{OpV, op_view, op_views, ops_wf};
use crate::canonical::{
    enc_u64, enc_str, enc_md, enc_ep, put_u64, put_str, put_md, read_u64, read_str, read_md, md_at,
    is_at, lemma_at_split, lemma_u64_facts, lemma_u64_at, lemma_part_at, fail, CanonicalError,
};
use crate::seqs::{concat, lemma_concat_take, lemma_concat_len_at_least, lemma_concat_push};
use crate::identity::{StateId, sha256, sha256_spec, to_hex, hex_bytes, is_hex_id};
use crate::describe::{decimal, u64_text};

verus! {

/// A commit identity: SHA-256 over the canonical commit encoding.
#[derive(Debug, Clone, Copy, PartialEq, Eq, PartialOrd, Ord, Hash)]
pub struct CommitId(pub [u8; 32]);

impl View for CommitId {
    type V = Seq<u8>;

    open spec fn view(&self) -> Seq<u8> {
        self.0@
    }
}

impl CommitId {
    /// Parse 64 lowercase hex digits.
    pub fn from_hex(hex: &str) -> (r: Option<CommitId>)
        ensures
            r is Some <==> is_hex_id(sbytes(hex@)),
            r matches Some(id) ==> hex_bytes(id@) == sbytes(hex@),
    {
        match StateId::from_hex(hex) {
            Some(s) => Some(CommitId(s.as_bytes())),
            None => None,
        }
    }

    /// The 64 lowercase hex digits.
    pub fn as_hex(&self) -> (r: String)
        ensures
            sbytes(r@) == hex_bytes(self@),
    {
        to_hex(&self.0)
    }
}

/// Whether two commit ids are the same.
pub fn commit_id_eq(a: &CommitId, b: &CommitId) -> (r: bool)
    ensures
        r == (a@ == b@),
{
    let mut i: usize = 0;
    while i < 32
        invariant
            a@.len() == 32,
            b@.len() == 32,
            i <= 32,
            forall|j: int| 0 <= j < i ==> a@[j] == b@[j],
        decreases 32 - i,
    {
        if a.0[i] != b.0[i] {
            proof {
                assert(a@[i as int] != b@[i as int]);
            }
            return false;
        }
        i = i + 1;
    }
    proof {
        assert(a@ =~= b@);
    }
    true
}

/// Immutable record of one commit.
#[derive(Debug, Clone, PartialEq, Eq)]
pub struct CommitRecord {
    /// The state this commit introduces.
    pub state_id: StateId,
    /// Parent ids: one for a normal commit, two for a merge, none for the
    /// root.
    pub parents: Vec<CommitId>,
    /// Operations, in application order, that produced the state from the
    /// first parent (empty for root and merge commits).
    pub operations: Vec<Operation>,
    pub message: String,
    /// Verification outcome at commit time.
    pub verification: VerificationSummary,
}

/// The view of a commit record.
pub struct CommitV {
    pub state: Seq<u8>,
    pub parents: Seq<Seq<u8>>,
    pub ops: Seq<OpV>,
    pub message: Seq<char>,
    pub passed: bool,
    pub failed: Seq<Seq<char>>,
}

/// The views of a list of commit ids.
pub open spec fn id_views(v: Seq<CommitId>) -> Seq<Seq<u8>> {
    v.map_values(|c: CommitId| c@)
}

/// The views of a list of strings.
pub open spec fn text_views(v: Seq<String>) -> Seq<Seq<char>> {
    v.map_values(|s: String| s@)
}

impl View for CommitRecord {
    type V = CommitV;

    open spec fn view(&self) -> CommitV {
        CommitV {
            state: self.state_id@,
            parents: id_views(self.parents@),
            ops: op_views(self.operations@),
            message: self.message@,
            passed: self.verification.passed,
            failed: text_views(self.verification.failed_invariants@),
        }
    }
}

/// Length-prefixed raw bytes.
pub open spec fn enc_bytes(b: Seq<u8>) -> Seq<u8> {
    enc_u64(b.len()) + b
}

/// Canonical bytes of an operation: a tag, then its arguments.
pub open spec fn enc_op(v: OpV) -> Seq<u8> {
    match v {
        OpV::AddNode(id, md) => enc_u64(1) + enc_str(id) + enc_md(md),
        OpV::RemoveNode(id) => enc_u64(2) + enc_str(id),
        OpV::AddLink(k) => enc_u64(3) + enc_ep(k.0) + enc_ep(k.1),
        OpV::RemoveLink(k) => enc_u64(4) + enc_ep(k.0) + enc_ep(k.1),
        OpV::AddIface(e) => enc_u64(5) + enc_str(e.0) + enc_str(e.1),
        OpV::RemoveIface(e) => enc_u64(6) + enc_str(e.0) + enc_str(e.1),
    }
}

/// The encoded parents.
pub open spec fn parent_parts(ps: Seq<Seq<u8>>) -> Seq<Seq<u8>> {
    ps.map_values(|p: Seq<u8>| enc_bytes(p))
}

/// The encoded operations.
pub open spec fn op_parts(ops: Seq<OpV>) -> Seq<Seq<u8>> {
    ops.map_values(|v: OpV| enc_op(v))
}

/// The encoded strings.
pub open spec fn str_parts(fs: Seq<Seq<char>>) -> Seq<Seq<u8>> {
    fs.map_values(|f: Seq<char>| enc_str(f))
}

/// The encoding of a commit with `flag` as the stored verification word:
/// state id, parents, operations, message, verification summary.
pub open spec fn enc_commit_with(c: CommitV, flag: nat) -> Seq<u8> {
    enc_bytes(c.state) + enc_u64(c.parents.len()) + concat(parent_parts(c.parents)) + enc_u64(
        c.ops.len(),
    ) + concat(op_parts(c.ops)) + enc_str(c.message) + enc_u64(flag) + enc_u64(c.failed.len())
        + concat(str_parts(c.failed))
}

/// The canonical encoding of a commit: passed is stored as 1, failed as 0.
pub open spec fn enc_commit(c: CommitV) -> Seq<u8> {
    enc_commit_with(
        c,
        if c.passed {
            1
        } else {
            0
        },
    )
}

/// Append length-prefixed raw bytes.
fn put_bytes(buf: &mut Vec<u8>, b: &[u8])
    ensures
        final(buf)@ == old(buf)@ + enc_bytes(b@),
{
    put_u64(buf, b.len() as u64);
    let ghost start = buf@;
    let mut i: usize = 0;
    while i < b.len()
        invariant
            i <= b@.len(),
            buf@ == start + b@.take(i as int),
        decreases b@.len() - i,
    {
        buf.push(b[i]);
        proof {
            assert(b@.take(i + 1) =~= b@.take(i as int).push(b@[i as int]));
        }
        i = i + 1;
    }
    proof {
        assert(b@.take(b@.len() as int) =~= b@);
        assert(final(buf)@ =~= old(buf)@ + enc_bytes(b@));
    }
}

/// Append an operation.
fn put_op(buf: &mut Vec<u8>, op: &Operation)
    requires
        op.wf(),
    ensures
        final(buf)@ == old(buf)@ + enc_op(op_view(*op)),
{
    match op {
        Operation::AddNode { id, metadata } => {
            put_u64(buf, 1);
            put_str(buf, id.as_str());
            put_md(buf, metadata);
        },
        Operation::RemoveNode { id } => {
            put_u64(buf, 2);
            put_str(buf, id.as_str());
        },
        Operation::AddLink { a, b } => {
            put_u64(buf, 3);
            put_str(buf, a.node.as_str());
            put_str(buf, a.iface.as_str());
            put_str(buf, b.node.as_str());
            put_str(buf, b.iface.as_str());
        },
        Operation::RemoveLink { a, b } => {
            put_u64(buf, 4);
            put_str(buf, a.node.as_str());
            put_str(buf, a.iface.as_str());
            put_str(buf, b.node.as_str());
            put_str(buf, b.iface.as_str());
        },
        Operation::AddInterface { node, name } => {
            put_u64(buf, 5);
            put_str(buf, node.as_str());
            put_str(buf, name.as_str());
        },
        Operation::RemoveInterface { node, name } => {
            put_u64(buf, 6);
            put_str(buf, node.as_str());
            put_str(buf, name.as_str());
        },
    }
    proof {
        assert(final(buf)@ =~= old(buf)@ + enc_op(op_view(*op)));
    }
}

/// Canonical encoding of a commit record (deterministic; hashed for its
/// id).
pub fn canonical_commit_bytes(rec: &CommitRecord) -> (r: Vec<u8>)
    requires
        ops_wf(rec.operations@),
    ensures
        r@ == enc_commit(rec@),
{
    let mut buf: Vec<u8> = Vec::new();
    let sid = rec.state_id.as_bytes();
    put_bytes(&mut buf, &sid);
    put_u64(&mut buf, rec.parents.len() as u64);
    let ghost p_start = buf@;
    let ghost pp = parent_parts(id_views(rec.parents@));
    let mut i: usize = 0;
    while i < rec.parents.len()
        invariant
            i <= rec.parents@.len(),
            pp == parent_parts(id_views(rec.parents@)),
            buf@ == p_start + concat(pp.take(i as int)),
        decreases rec.parents@.len() - i,
    {
        let p = rec.parents[i].0;
        put_bytes(&mut buf, &p);
        proof {
            lemma_concat_take(pp, i as int);
            assert(pp[i as int] == enc_bytes(p@));
        }
        i = i + 1;
    }
    proof {
        assert(pp.take(rec.parents@.len() as int) =~= pp);
    }
    put_u64(&mut buf, rec.operations.len() as u64);
    let ghost o_start = buf@;
    let ghost op = op_parts(op_views(rec.operations@));
    let mut i: usize = 0;
    while i < rec.operations.len()
        invariant
            i <= rec.operations@.len(),
            ops_wf(rec.operations@),
            op == op_parts(op_views(rec.operations@)),
            buf@ == o_start + concat(op.take(i as int)),
        decreases rec.operations@.len() - i,
    {
        put_op(&mut buf, &rec.operations[i]);
        proof {
            lemma_concat_take(op, i as int);
        }
        i = i + 1;
    }
    proof {
        assert(op.take(rec.operations@.len() as int) =~= op);
    }
    put_str(&mut buf, rec.message.as_str());
    put_u64(&mut buf, if rec.verification.passed {
        1
    } else {
        0
    });
    let fs = &rec.verification.failed_invariants;
    put_u64(&mut buf, fs.len() as u64);
    let ghost f_start = buf@;
    let ghost fp = str_parts(text_views(fs@));
    let mut i: usize = 0;
    while i < fs.len()
        invariant
            i <= fs@.len(),
            fp == str_parts(text_views(fs@)),
            buf@ == f_start + concat(fp.take(i as int)),
        decreases fs@.len() - i,
    {
        put_str(&mut buf, fs[i].as_str());
        proof {
            lemma_concat_take(fp, i as int);
        }
        i = i + 1;
    }
    proof {
        assert(fp.take(fs@.len() as int) =~= fp);
        assert(buf@ =~= enc_commit(rec@));
    }
    buf
}

/// The id of the commit with the given canonical bytes.
pub fn commit_id_of_bytes(bytes: &[u8]) -> (r: CommitId)
    ensures
        r@ == sha256_spec(bytes@),
{
    CommitId(sha256(bytes))
}

impl CommitRecord {
    /// The commit's content-derived identity.
    pub fn id(&self) -> (r: CommitId)
        requires
            ops_wf(self.operations@),
        ensures
            r@ == sha256_spec(enc_commit(self@)),
    {
        let b = canonical_commit_bytes(self);
        commit_id_of_bytes(b.as_slice())
    }
}

/// Read 32 length-prefixed bytes; `msg` explains a wrong length.
fn read_id32(b: &[u8], pos: usize, msg: &str) -> (r: Result<([u8; 32], usize), CanonicalError>)
    requires
        pos <= b@.len(),
    ensures
        r matches Ok((a, p)) ==> p == pos + 40 && is_at(b@, pos as int, enc_bytes(a@)),
        forall|x: Seq<u8>| #[trigger]
            is_at(b@, pos as int, enc_bytes(x)) && x.len() == 32 ==> (r matches Ok((a, _)) && a@ == x),
{
    proof {
        lemma_u64_facts();
    }
    let (len, q) = match read_u64(b, pos) {
        Ok(x) => x,
        Err(e) => {
            proof {
                assert forall|x: Seq<u8>| #[trigger] is_at(b@, pos as int, enc_bytes(x)) && x.len() == 32 implies false by {
                    lemma_at_split(b@, pos as int, enc_u64(x.len()), x);
                }
            }
            return Err(e);
        },
    };
    proof {
        assert forall|x: Seq<u8>| #[trigger] is_at(b@, pos as int, enc_bytes(x)) && x.len() == 32 implies len == 32
            && is_at(b@, q as int, x) by {
            lemma_at_split(b@, pos as int, enc_u64(x.len()), x);
            lemma_u64_at(b@, pos as int, len as nat, x.len());
        }
    }
    if len > (b.len() - q) as u64 {
        return Err(fail("length prefix exceeds remaining input", q));
    }
    if len != 32 {
        return Err(fail(msg, q + len as usize));
    }
    let mut id: [u8; 32] = [0u8; 32];
    let mut i: usize = 0;
    assert(q + 32 <= b.len());
    while i < 32
        invariant
            q + 32 <= b.len(),
            b.len() == b@.len(),
            i <= 32,
            id@.len() == 32,
            forall|j: int| 0 <= j < i ==> id@[j] == b@[q + j],
        decreases 32 - i,
    {
        id[i] = b[q + i];
        i = i + 1;
    }
    proof {
        assert(id@ =~= b@.subrange(q as int, q + 32));
        lemma_at_split(b@, pos as int, enc_u64(32), id@);
        assert forall|x: Seq<u8>| #[trigger] is_at(b@, pos as int, enc_bytes(x)) && x.len() == 32 implies id@
            == x by {
            assert(x =~= id@);
        }
    }
    Ok((id, q + 32))
}

/// Read an endpoint: node, then interface.
fn read_ep(b: &[u8], pos: usize) -> (r: Result<(Endpoint, usize), CanonicalError>)
    requires
        pos <= b@.len(),
    ensures
        r matches Ok((e, p)) ==> p == pos + enc_ep(e@).len() && is_at(b@, pos as int, enc_ep(e@)),
        forall|t: (Seq<char>, Seq<char>)| #[trigger]
            is_at(b@, pos as int, enc_ep(t)) ==> (r matches Ok((e, _)) && e@ == t),
{
    proof {
        assert forall|t: (Seq<char>, Seq<char>)| #[trigger] is_at(b@, pos as int, enc_ep(t)) implies is_at(
            b@,
            pos as int,
            enc_str(t.0),
        ) && is_at(b@, pos + enc_str(t.0).len(), enc_str(t.1)) by {
            lemma_at_split(b@, pos as int, enc_str(t.0), enc_str(t.1));
        }
    }
    let (node, q) = match read_str(b, pos) {
        Ok(x) => x,
        Err(e) => {
            return Err(e);
        },
    };
    let ghost q0 = q;
    let (iface, q2) = match read_str(b, q) {
        Ok(x) => x,
        Err(e) => {
            proof {
                assert forall|t: (Seq<char>, Seq<char>)| #[trigger] is_at(b@, pos as int, enc_ep(t)) implies false by {
                    assert(node@ == t.0);
                    assert(is_at(b@, q0 as int, enc_str(t.1)));
                }
            }
            return Err(e);
        },
    };
    proof {
        lemma_at_split(b@, pos as int, enc_str(node@), enc_str(iface@));
        assert forall|t: (Seq<char>, Seq<char>)| #[trigger] is_at(b@, pos as int, enc_ep(t)) implies t == (
            node@,
            iface@,
        ) by {
            assert(node@ == t.0);
            assert(is_at(b@, q0 as int, enc_str(t.1)));
        }
    }
    Ok((Endpoint { node, iface }, q2))
}

/// An operation can be encoded: metadata it carries is finite.
pub open spec fn op_ok(v: OpV) -> bool {
    match v {
        OpV::AddNode(_, md) => md.dom().finite(),
        _ => true,
    }
}

/// Read an operation.
fn read_op(b: &[u8], pos: usize) -> (r: Result<(Operation, usize), CanonicalError>)
    requires
        pos <= b@.len(),
    ensures
        r matches Ok((o, p)) ==> o.wf() && p == pos + enc_op(op_view(o)).len() && is_at(
            b@,
            pos as int,
            enc_op(op_view(o)),
        ),
        forall|v: OpV| #[trigger]
            is_at(b@, pos as int, enc_op(v)) && op_ok(v) ==> (r matches Ok((o, _)) && op_view(o) == v),
{
    proof {
        lemma_u64_facts();
        assert forall|v: OpV| #[trigger] is_at(b@, pos as int, enc_op(v)) implies (match v {
            OpV::AddNode(id, md) => is_at(b@, pos as int, enc_u64(1)) && is_at(b@, pos + 8, enc_str(id))
                && is_at(b@, pos + 8 + enc_str(id).len(), enc_md(md)),
            OpV::RemoveNode(id) => is_at(b@, pos as int, enc_u64(2)) && is_at(b@, pos + 8, enc_str(id)),
            OpV::AddLink(k) => is_at(b@, pos as int, enc_u64(3)) && is_at(b@, pos + 8, enc_ep(k.0))
                && is_at(b@, pos + 8 + enc_ep(k.0).len(), enc_ep(k.1)),
            OpV::RemoveLink(k) => is_at(b@, pos as int, enc_u64(4)) && is_at(b@, pos + 8, enc_ep(k.0))
                && is_at(b@, pos + 8 + enc_ep(k.0).len(), enc_ep(k.1)),
            OpV::AddIface(e) => is_at(b@, pos as int, enc_u64(5)) && is_at(b@, pos + 8, enc_str(e.0))
                && is_at(b@, pos + 8 + enc_str(e.0).len(), enc_str(e.1)),
            OpV::RemoveIface(e) => is_at(b@, pos as int, enc_u64(6)) && is_at(b@, pos + 8, enc_str(e.0))
                && is_at(b@, pos + 8 + enc_str(e.0).len(), enc_str(e.1)),
        }) by {
            match v {
                OpV::AddNode(id, md) => {
                    lemma_at_split(b@, pos as int, enc_u64(1) + enc_str(id), enc_md(md));
                    lemma_at_split(b@, pos as int, enc_u64(1), enc_str(id));
                },
                OpV::RemoveNode(id) => {
                    lemma_at_split(b@, pos as int, enc_u64(2), enc_str(id));
                },
                OpV::AddLink(k) => {
                    lemma_at_split(b@, pos as int, enc_u64(3) + enc_ep(k.0), enc_ep(k.1));
                    lemma_at_split(b@, pos as int, enc_u64(3), enc_ep(k.0));
                },
                OpV::RemoveLink(k) => {
                    lemma_at_split(b@, pos as int, enc_u64(4) + enc_ep(k.0), enc_ep(k.1));
                    lemma_at_split(b@, pos as int, enc_u64(4), enc_ep(k.0));
                },
                OpV::AddIface(e) => {
                    lemma_at_split(b@, pos as int, enc_u64(5) + enc_str(e.0), enc_str(e.1));
                    lemma_at_split(b@, pos as int, enc_u64(5), enc_str(e.0));
                },
                OpV::RemoveIface(e) => {
                    lemma_at_split(b@, pos as int, enc_u64(6) + enc_str(e.0), enc_str(e.1));
                    lemma_at_split(b@, pos as int, enc_u64(6), enc_str(e.0));
                },
            }
        }
    }
    let (tag, p) = match read_u64(b, pos) {
        Ok(x) => x,
        Err(e) => {
            return Err(e);
        },
    };
    proof {
        assert forall|v: OpV| #[trigger] is_at(b@, pos as int, enc_op(v)) implies tag == match v {
            OpV::AddNode(..) => 1nat,
            OpV::RemoveNode(..) => 2nat,
            OpV::AddLink(..) => 3nat,
            OpV::RemoveLink(..) => 4nat,
            OpV::AddIface(..) => 5nat,
            OpV::RemoveIface(..) => 6nat,
        } by {
            let t: nat = match v {
                OpV::AddNode(..) => 1nat,
                OpV::RemoveNode(..) => 2nat,
                OpV::AddLink(..) => 3nat,
                OpV::RemoveLink(..) => 4nat,
                OpV::AddIface(..) => 5nat,
                OpV::RemoveIface(..) => 6nat,
            };
            lemma_u64_at(b@, pos as int, tag as nat, t);
        }
    }
    if tag == 1 {
        let (id, q) = match read_str(b, p) {
            Ok(x) => x,
            Err(e) => {
                return Err(e);
            },
        };
        let ghost q0 = q;
        let (md, q2) = match read_md(b, q) {
            Ok(x) => x,
            Err(e) => {
                proof {
                    assert forall|v: OpV| #[trigger] is_at(b@, pos as int, enc_op(v)) && op_ok(v) implies false by {
                        if let OpV::AddNode(i, m) = v {
                            assert(id@ == i);
                            assert(md_at(b@, q0 as int, m));
                        }
                    }
                }
                return Err(e);
            },
        };
        proof {
            lemma_at_split(b@, pos as int, enc_u64(1), enc_str(id@));
            lemma_at_split(b@, pos as int, enc_u64(1) + enc_str(id@), enc_md(md@));
            assert forall|v: OpV| #[trigger] is_at(b@, pos as int, enc_op(v)) && op_ok(v) implies v
                == OpV::AddNode(id@, md@) by {
                if let OpV::AddNode(i, m) = v {
                    assert(id@ == i);
                    assert(md_at(b@, q0 as int, m));
                }
            }
        }
        Ok((Operation::AddNode { id, metadata: md }, q2))
    } else if tag == 2 {
        let (id, q) = match read_str(b, p) {
            Ok(x) => x,
            Err(e) => {
                return Err(e);
            },
        };
        proof {
            lemma_at_split(b@, pos as int, enc_u64(2), enc_str(id@));
        }
        Ok((Operation::RemoveNode { id }, q))
    } else if tag == 3 || tag == 4 {
        let (a, q) = match read_ep(b, p) {
            Ok(x) => x,
            Err(e) => {
                return Err(e);
            },
        };
        let ghost q0 = q;
        let (c, q2) = match read_ep(b, q) {
            Ok(x) => x,
            Err(e) => {
                proof {
                    assert forall|v: OpV| #[trigger] is_at(b@, pos as int, enc_op(v)) && op_ok(v) implies false by {
                        match v {
                            OpV::AddLink(k) => {
                                assert(a@ == k.0);
                                assert(is_at(b@, q0 as int, enc_ep(k.1)));
                            },
                            OpV::RemoveLink(k) => {
                                assert(a@ == k.0);
                                assert(is_at(b@, q0 as int, enc_ep(k.1)));
                            },
                            _ => {},
                        }
                    }
                }
                return Err(e);
            },
        };
        proof {
            lemma_at_split(b@, pos as int, enc_u64(tag as nat), enc_ep(a@));
            lemma_at_split(b@, pos as int, enc_u64(tag as nat) + enc_ep(a@), enc_ep(c@));
            assert forall|v: OpV| #[trigger] is_at(b@, pos as int, enc_op(v)) && op_ok(v) implies v == (if tag
                == 3 {
                OpV::AddLink((a@, c@))
            } else {
                OpV::RemoveLink((a@, c@))
            }) by {
                match v {
                    OpV::AddLink(k) => {
                        assert(a@ == k.0);
                        assert(is_at(b@, q0 as int, enc_ep(k.1)));
                    },
                    OpV::RemoveLink(k) => {
                        assert(a@ == k.0);
                        assert(is_at(b@, q0 as int, enc_ep(k.1)));
                    },
                    _ => {},
                }
            }
        }
        if tag == 3 {
            Ok((Operation::AddLink { a, b: c }, q2))
        } else {
            Ok((Operation::RemoveLink { a, b: c }, q2))
        }
    } else if tag == 5 || tag == 6 {
        let (node, q) = match read_str(b, p) {
            Ok(x) => x,
            Err(e) => {
                return Err(e);
            },
        };
        let ghost q0 = q;
        let (name, q2) = match read_str(b, q) {
            Ok(x) => x,
            Err(e) => {
                proof {
                    assert forall|v: OpV| #[trigger] is_at(b@, pos as int, enc_op(v)) && op_ok(v) implies false by {
                        match v {
                            OpV::AddIface(k) => {
                                assert(node@ == k.0);
                                assert(is_at(b@, q0 as int, enc_str(k.1)));
                            },
                            OpV::RemoveIface(k) => {
                                assert(node@ == k.0);
                                assert(is_at(b@, q0 as int, enc_str(k.1)));
                            },
                            _ => {},
                        }
                    }
                }
                return Err(e);
            },
        };
        proof {
            lemma_at_split(b@, pos as int, enc_u64(tag as nat), enc_str(node@));
            lemma_at_split(b@, pos as int, enc_u64(tag as nat) + enc_str(node@), enc_str(name@));
            assert forall|v: OpV| #[trigger] is_at(b@, pos as int, enc_op(v)) && op_ok(v) implies v == (if tag
                == 5 {
                OpV::AddIface((node@, name@))
            } else {
                OpV::RemoveIface((node@, name@))
            }) by {
                match v {
                    OpV::AddIface(k) => {
                        assert(node@ == k.0);
                        assert(is_at(b@, q0 as int, enc_str(k.1)));
                    },
                    OpV::RemoveIface(k) => {
                        assert(node@ == k.0);
                        assert(is_at(b@, q0 as int, enc_str(k.1)));
                    },
                    _ => {},
                }
            }
        }
        if tag == 5 {
            Ok((Operation::AddInterface { node, name }, q2))
        } else {
            Ok((Operation::RemoveInterface { node, name }, q2))
        }
    } else {
        let mut m = owned("unknown operation tag ");
        let t = u64_text(tag);
        push_str(&mut m, t.as_str());
        Err(CanonicalError { message: m, offset: p })
    }
}

/// A commit record that can be encoded: a 32-byte state id, at most two
/// parents of 32 bytes each, operations with finite metadata.
pub open spec fn commit_ok(c: CommitV) -> bool {
    &&& c.state.len() == 32
    &&& c.parents.len() <= 2
    &&& forall|i: int| 0 <= i < c.parents.len() ==> (#[trigger] c.parents[i]).len() == 32
    &&& forall|i: int| 0 <= i < c.ops.len() ==> op_ok(#[trigger] c.ops[i])
}

/// `b` is the encoding of the acceptable record `c`, its verification
/// word `w` reading as its flag (1 for passed, anything else for failed).
pub open spec fn commit_enc_is(b: Seq<u8>, c: CommitV, w: nat) -> bool {
    &&& commit_ok(c)
    &&& w <= u64::MAX
    &&& (w == 1) == c.passed
    &&& enc_commit_with(c, w) == b
}

/// `b` begins with the encoding of the acceptable record `c`, its
/// verification word `w` reading as its flag.
pub open spec fn commit_at(b: Seq<u8>, c: CommitV, w: nat) -> bool {
    &&& commit_ok(c)
    &&& w <= u64::MAX
    &&& (w == 1) == c.passed
    &&& is_at(b, 0, enc_commit_with(c, w))
}

/// The canonical bytes of an acceptable record are an encoding that
/// parsing accepts as that record: with `CommitRecord::parse`'s contract,
/// parsing them gives the record back, interface operations included.
pub proof fn law_commit_round_trip(c: CommitV)
    requires
        commit_ok(c),
    ensures
        commit_enc_is(enc_commit(c), c, if c.passed {
            1
        } else {
            0
        }),
{
}

/// Where the operation count stands.
pub open spec fn at_ops(c: CommitV) -> int {
    48int + concat(parent_parts(c.parents)).len()
}

/// Where the message stands.
pub open spec fn at_msg(c: CommitV) -> int {
    at_ops(c) + 8 + concat(op_parts(c.ops)).len()
}

/// Where the verification word stands.
pub open spec fn at_flag(c: CommitV) -> int {
    at_msg(c) + enc_str(c.message).len()
}

proof fn lemma_commit_layout(b: Seq<u8>, c: CommitV, w: nat)
    requires
        commit_at(b, c, w),
    ensures
        is_at(b, 0, enc_bytes(c.state)),
        is_at(b, 40, enc_u64(c.parents.len())),
        is_at(b, 48, concat(parent_parts(c.parents))),
        is_at(b, at_ops(c), enc_u64(c.ops.len())),
        is_at(b, at_ops(c) + 8, concat(op_parts(c.ops))),
        is_at(b, at_msg(c), enc_str(c.message)),
        is_at(b, at_flag(c), enc_u64(w)),
        is_at(b, at_flag(c) + 8, enc_u64(c.failed.len())),
        is_at(b, at_flag(c) + 16, concat(str_parts(c.failed))),
        at_flag(c) + 16 + concat(str_parts(c.failed)).len() == enc_commit_with(c, w).len(),
        enc_commit_with(c, w).len() <= b.len(),
        c.ops.len() <= b.len(),
        c.failed.len() <= b.len(),
{
    lemma_u64_facts();
    let a1 = enc_bytes(c.state);
    let a2 = a1 + enc_u64(c.parents.len());
    let a3 = a2 + concat(parent_parts(c.parents));
    let a4 = a3 + enc_u64(c.ops.len());
    let a5 = a4 + concat(op_parts(c.ops));
    let a6 = a5 + enc_str(c.message);
    let a7 = a6 + enc_u64(w);
    let a8 = a7 + enc_u64(c.failed.len());
    assert(enc_commit_with(c, w) =~= a8 + concat(str_parts(c.failed)));
    lemma_at_split(b, 0, a8, concat(str_parts(c.failed)));
    lemma_at_split(b, 0, a7, enc_u64(c.failed.len()));
    lemma_at_split(b, 0, a6, enc_u64(w));
    lemma_at_split(b, 0, a5, enc_str(c.message));
    lemma_at_split(b, 0, a4, concat(op_parts(c.ops)));
    lemma_at_split(b, 0, a3, enc_u64(c.ops.len()));
    lemma_at_split(b, 0, a2, concat(parent_parts(c.parents)));
    lemma_at_split(b, 0, a1, enc_u64(c.parents.len()));
    let op = op_parts(c.ops);
    assert forall|j: int| 0 <= j < op.len() implies (#[trigger] op[j]).len() >= 8 by {
        assert(op[j] == enc_op(c.ops[j]));
    }
    lemma_concat_len_at_least(op, 8);
    let fp = str_parts(c.failed);
    assert forall|j: int| 0 <= j < fp.len() implies (#[trigger] fp[j]).len() >= 8 by {
        assert(fp[j] == enc_str(c.failed[j]));
    }
    lemma_concat_len_at_least(fp, 8);
}

/// Read `count` parent ids.
fn read_parents(b: &[u8], pos: usize, count: usize) -> (r: Result<(Vec<CommitId>, usize), CanonicalError>)
    requires
        pos <= b@.len(),
    ensures
        r matches Ok((ps, q)) ==> ps@.len() == count && (forall|j: int| 0 <= j < ps@.len() ==> (#[trigger] ps@[j])@.len() == 32)
            && is_at(b@, pos as int, concat(parent_parts(id_views(ps@)))) && q == pos + concat(
            parent_parts(id_views(ps@)),
        ).len(),
        forall|xs: Seq<Seq<u8>>| #[trigger]
            is_at(b@, pos as int, concat(parent_parts(xs))) && xs.len() == count && (forall|j: int|
                0 <= j < xs.len() ==> (#[trigger] xs[j]).len() == 32) ==> (r matches Ok((ps, _))
                && id_views(ps@) == xs),
{
    let mut ps: Vec<CommitId> = Vec::new();
    let mut i: usize = 0;
    let mut at: usize = pos;
    proof {
        assert(parent_parts(id_views(ps@)) =~= Seq::<Seq<u8>>::empty());
        assert(b@.subrange(pos as int, pos as int) =~= Seq::<u8>::empty());
    }
    while i < count
        invariant
            pos <= at <= b@.len(),
            i <= count,
            ps@.len() == i,
            forall|j: int| 0 <= j < i ==> (#[trigger] ps@[j])@.len() == 32,
            is_at(b@, pos as int, concat(parent_parts(id_views(ps@)))),
            at == pos + concat(parent_parts(id_views(ps@))).len(),
            forall|xs: Seq<Seq<u8>>| #[trigger]
                is_at(b@, pos as int, concat(parent_parts(xs))) && xs.len() == count && (forall|j: int|
                    0 <= j < xs.len() ==> (#[trigger] xs[j]).len() == 32) ==> id_views(ps@) == xs.take(
                    i as int,
                ),
        decreases count - i,
    {
        let (a, q) = match read_id32(b, at, "parent id must be 32 bytes") {
            Ok(x) => x,
            Err(e) => {
                proof {
                    assert forall|xs: Seq<Seq<u8>>| #[trigger]
                        is_at(b@, pos as int, concat(parent_parts(xs))) && xs.len() == count && (forall|j: int|
                            0 <= j < xs.len() ==> (#[trigger] xs[j]).len() == 32) implies false by {
                        assert(parent_parts(xs).take(i as int) =~= parent_parts(xs.take(i as int)));
                        lemma_part_at(b@, pos as int, parent_parts(xs), i as int);
                        assert(parent_parts(xs)[i as int] == enc_bytes(xs[i as int]));
                    }
                }
                return Err(e);
            },
        };
        let ghost before = ps@;
        ps.push(CommitId(a));
        proof {
            lemma_u64_facts();
            assert(a@.len() == 32);
            assert(enc_bytes(a@).len() == 40);
            assert(id_views(ps@) =~= id_views(before).push(a@));
            assert(parent_parts(id_views(ps@)) =~= parent_parts(id_views(before)).push(enc_bytes(a@)));
            lemma_concat_push(parent_parts(id_views(before)), enc_bytes(a@));
            lemma_at_split(b@, pos as int, concat(parent_parts(id_views(before))), enc_bytes(a@));
            assert forall|xs: Seq<Seq<u8>>| #[trigger]
                is_at(b@, pos as int, concat(parent_parts(xs))) && xs.len() == count && (forall|j: int|
                    0 <= j < xs.len() ==> (#[trigger] xs[j]).len() == 32) implies id_views(ps@) == xs.take(
                i + 1,
            ) by {
                assert(parent_parts(xs).take(i as int) =~= parent_parts(xs.take(i as int)));
                lemma_part_at(b@, pos as int, parent_parts(xs), i as int);
                assert(parent_parts(xs)[i as int] == enc_bytes(xs[i as int]));
                assert(xs[i as int].len() == 32);
                assert(a@ == xs[i as int]);
                assert(xs.take(i + 1) =~= xs.take(i as int).push(xs[i as int]));
            }
        }
        at = q;
        i = i + 1;
    }
    proof {
        assert forall|xs: Seq<Seq<u8>>| #[trigger]
            is_at(b@, pos as int, concat(parent_parts(xs))) && xs.len() == count && (forall|j: int|
                0 <= j < xs.len() ==> (#[trigger] xs[j]).len() == 32) implies id_views(ps@) == xs by {
            assert(xs.take(count as int) =~= xs);
        }
    }
    Ok((ps, at))
}

/// Read `count` operations.
fn read_ops(b: &[u8], pos: usize, count: usize) -> (r: Result<(Vec<Operation>, usize), CanonicalError>)
    requires
        pos <= b@.len(),
    ensures
        r matches Ok((os, q)) ==> os@.len() == count && ops_wf(os@) && is_at(b@, pos as int, concat(op_parts(op_views(os@))))
            && q == pos + concat(op_parts(op_views(os@))).len(),
        forall|xs: Seq<OpV>| #[trigger]
            is_at(b@, pos as int, concat(op_parts(xs))) && xs.len() == count && (forall|j: int|
                0 <= j < xs.len() ==> op_ok(#[trigger] xs[j])) ==> (r matches Ok((os, _)) && op_views(os@)
                == xs),
{
    let mut os: Vec<Operation> = Vec::new();
    let mut i: usize = 0;
    let mut at: usize = pos;
    proof {
        assert(op_parts(op_views(os@)) =~= Seq::<Seq<u8>>::empty());
        assert(b@.subrange(pos as int, pos as int) =~= Seq::<u8>::empty());
    }
    while i < count
        invariant
            pos <= at <= b@.len(),
            i <= count,
            os@.len() == i,
            ops_wf(os@),
            is_at(b@, pos as int, concat(op_parts(op_views(os@)))),
            at == pos + concat(op_parts(op_views(os@))).len(),
            forall|xs: Seq<OpV>| #[trigger]
                is_at(b@, pos as int, concat(op_parts(xs))) && xs.len() == count && (forall|j: int|
                    0 <= j < xs.len() ==> op_ok(#[trigger] xs[j])) ==> op_views(os@) == xs.take(i as int),
        decreases count - i,
    {
        let (o, q) = match read_op(b, at) {
            Ok(x) => x,
            Err(e) => {
                proof {
                    assert forall|xs: Seq<OpV>| #[trigger]
                        is_at(b@, pos as int, concat(op_parts(xs))) && xs.len() == count && (forall|j: int|
                            0 <= j < xs.len() ==> op_ok(#[trigger] xs[j])) implies false by {
                        assert(op_parts(xs).take(i as int) =~= op_parts(xs.take(i as int)));
                        lemma_part_at(b@, pos as int, op_parts(xs), i as int);
                        assert(op_parts(xs)[i as int] == enc_op(xs[i as int]));
                        assert(op_ok(xs[i as int]));
                    }
                }
                return Err(e);
            },
        };
        let ghost before = os@;
        os.push(o);
        proof {
            assert(op_views(os@) =~= op_views(before).push(op_view(o)));
            assert(op_parts(op_views(os@)) =~= op_parts(op_views(before)).push(enc_op(op_view(o))));
            lemma_concat_push(op_parts(op_views(before)), enc_op(op_view(o)));
            lemma_at_split(b@, pos as int, concat(op_parts(op_views(before))), enc_op(op_view(o)));
            assert forall|j: int| 0 <= j < os@.len() implies (#[trigger] os@[j]).wf() by {
                if j < before.len() {
                    assert(os@[j] == before[j]);
                }
            }
            assert forall|xs: Seq<OpV>| #[trigger]
                is_at(b@, pos as int, concat(op_parts(xs))) && xs.len() == count && (forall|j: int|
                    0 <= j < xs.len() ==> op_ok(#[trigger] xs[j])) implies op_views(os@) == xs.take(i + 1) by {
                assert(op_parts(xs).take(i as int) =~= op_parts(xs.take(i as int)));
                lemma_part_at(b@, pos as int, op_parts(xs), i as int);
                assert(op_parts(xs)[i as int] == enc_op(xs[i as int]));
                assert(op_ok(xs[i as int]));
                assert(op_view(o) == xs[i as int]);
                assert(xs.take(i + 1) =~= xs.take(i as int).push(xs[i as int]));
            }
        }
        at = q;
        i = i + 1;
    }
    proof {
        assert forall|xs: Seq<OpV>| #[trigger]
            is_at(b@, pos as int, concat(op_parts(xs))) && xs.len() == count && (forall|j: int|
                0 <= j < xs.len() ==> op_ok(#[trigger] xs[j])) implies op_views(os@) == xs by {
            assert(xs.take(count as int) =~= xs);
        }
    }
    Ok((os, at))
}

/// Read `count` strings.
fn read_strs(b: &[u8], pos: usize, count: usize) -> (r: Result<(Vec<String>, usize), CanonicalError>)
    requires
        pos <= b@.len(),
    ensures
        r matches Ok((fs, q)) ==> fs@.len() == count && is_at(b@, pos as int, concat(str_parts(text_views(fs@))))
            && q == pos + concat(str_parts(text_views(fs@))).len(),
        forall|xs: Seq<Seq<char>>| #[trigger]
            is_at(b@, pos as int, concat(str_parts(xs))) && xs.len() == count ==> (r matches Ok((fs, _))
                && text_views(fs@) == xs),
{
    let mut fs: Vec<String> = Vec::new();
    let mut i: usize = 0;
    let mut at: usize = pos;
    proof {
        assert(str_parts(text_views(fs@)) =~= Seq::<Seq<u8>>::empty());
        assert(b@.subrange(pos as int, pos as int) =~= Seq::<u8>::empty());
    }
    while i < count
        invariant
            pos <= at <= b@.len(),
            i <= count,
            fs@.len() == i,
            is_at(b@, pos as int, concat(str_parts(text_views(fs@)))),
            at == pos + concat(str_parts(text_views(fs@))).len(),
            forall|xs: Seq<Seq<char>>| #[trigger]
                is_at(b@, pos as int, concat(str_parts(xs))) && xs.len() == count ==> text_views(fs@)
                    == xs.take(i as int),
        decreases count - i,
    {
        let (f, q) = match read_str(b, at) {
            Ok(x) => x,
            Err(e) => {
                proof {
                    assert forall|xs: Seq<Seq<char>>| #[trigger]
                        is_at(b@, pos as int, concat(str_parts(xs))) && xs.len() == count implies false by {
                        assert(str_parts(xs).take(i as int) =~= str_parts(xs.take(i as int)));
                        lemma_part_at(b@, pos as int, str_parts(xs), i as int);
                        assert(str_parts(xs)[i as int] == enc_str(xs[i as int]));
                    }
                }
                return Err(e);
            },
        };
        let ghost before = fs@;
        fs.push(f);
        proof {
            assert(text_views(fs@) =~= text_views(before).push(f@));
            assert(str_parts(text_views(fs@)) =~= str_parts(text_views(before)).push(enc_str(f@)));
            lemma_concat_push(str_parts(text_views(before)), enc_str(f@));
            lemma_at_split(b@, pos as int, concat(str_parts(text_views(before))), enc_str(f@));
            assert forall|xs: Seq<Seq<char>>| #[trigger]
                is_at(b@, pos as int, concat(str_parts(xs))) && xs.len() == count implies text_views(fs@)
                == xs.take(i + 1) by {
                assert(str_parts(xs).take(i as int) =~= str_parts(xs.take(i as int)));
                lemma_part_at(b@, pos as int, str_parts(xs), i as int);
                assert(str_parts(xs)[i as int] == enc_str(xs[i as int]));
                assert(f@ == xs[i as int]);
                assert(xs.take(i + 1) =~= xs.take(i as int).push(xs[i as int]));
            }
        }
        at = q;
        i = i + 1;
    }
    proof {
        assert forall|xs: Seq<Seq<char>>| #[trigger]
            is_at(b@, pos as int, concat(str_parts(xs))) && xs.len() == count implies text_views(fs@) == xs by {
            assert(xs.take(count as int) =~= xs);
        }
    }
    Ok((fs, at))
}

/// The head of a commit encoding: state id, parents, operations.
pub open spec fn enc_head(state: Seq<u8>, ps: Seq<Seq<u8>>, ops: Seq<OpV>) -> Seq<u8> {
    enc_bytes(state) + enc_u64(ps.len()) + concat(parent_parts(ps)) + enc_u64(ops.len()) + concat(
        op_parts(ops),
    )
}

/// Read the head of a commit record: state id, parents, operations.
fn parse_head(b: &[u8]) -> (r: Result<([u8; 32], Vec<CommitId>, Vec<Operation>, usize), CanonicalError>)
    ensures
        r matches Ok((sid, ps, os, p)) ==> ps@.len() <= 2 && (forall|j: int| 0 <= j < ps@.len() ==> (#[trigger] ps@[j])@.len() == 32)
            && ops_wf(os@) && is_at(b@, 0, enc_head(sid@, id_views(ps@), op_views(os@))) && p == enc_head(
            sid@,
            id_views(ps@),
            op_views(os@),
        ).len(),
        forall|c: CommitV, w: nat| #[trigger]
            commit_at(b@, c, w) ==> (r matches Ok((sid, ps, os, p)) && sid@ == c.state && id_views(ps@)
                == c.parents && op_views(os@) == c.ops && p == at_msg(c)),
        forall|sid: Seq<u8>, k: u64|
            sid.len() == 32 && k > 2 && #[trigger] is_at(b@, 0, enc_bytes(sid) + enc_u64(k as nat)) ==> (r matches Err(
                e,
            ) && e.message@ == "commit may have at most two parents"@),
{
    proof {
        lemma_u64_facts();
        assert(b@.len() == b.len());
        assert forall|sid: Seq<u8>, k: u64|
            sid.len() == 32 && k > 2 && #[trigger] is_at(b@, 0, enc_bytes(sid) + enc_u64(k as nat)) implies is_at(
            b@,
            0,
            enc_bytes(sid),
        ) && is_at(b@, 40, enc_u64(k as nat)) by {
            lemma_at_split(b@, 0, enc_bytes(sid), enc_u64(k as nat));
        }
    }
    let (sid, p) = match read_id32(b, 0, "invalid state id") {
        Ok(x) => x,
        Err(e) => {
            proof {
                assert forall|c: CommitV, w: nat| #[trigger] commit_at(b@, c, w) implies false by {
                    lemma_commit_layout(b@, c, w);
                }
            }
            return Err(e);
        },
    };
    let (pcount, p) = match read_u64(b, p) {
        Ok(x) => x,
        Err(e) => {
            proof {
                assert forall|c: CommitV, w: nat| #[trigger] commit_at(b@, c, w) implies false by {
                    lemma_commit_layout(b@, c, w);
                }
            }
            return Err(e);
        },
    };
    proof {
        assert forall|c: CommitV, w: nat| #[trigger] commit_at(b@, c, w) implies c.state == sid@
            && c.parents.len() == pcount by {
            lemma_commit_layout(b@, c, w);
            lemma_u64_at(b@, 40, pcount as nat, c.parents.len());
        }
        assert forall|sid: Seq<u8>, k: u64|
            sid.len() == 32 && k > 2 && #[trigger] is_at(b@, 0, enc_bytes(sid) + enc_u64(k as nat)) implies k
            == pcount by {
            lemma_u64_at(b@, 40, pcount as nat, k as nat);
        }
    }
    if pcount > 2 {
        return Err(fail("commit may have at most two parents", p));
    }
    let (parents, p) = match read_parents(b, p, pcount as usize) {
        Ok(x) => x,
        Err(e) => {
            proof {
                assert forall|c: CommitV, w: nat| #[trigger] commit_at(b@, c, w) implies false by {
                    lemma_commit_layout(b@, c, w);
                }
            }
            return Err(e);
        },
    };
    proof {
        assert forall|c: CommitV, w: nat| #[trigger] commit_at(b@, c, w) implies id_views(parents@)
            == c.parents && p == at_ops(c) by {
            lemma_commit_layout(b@, c, w);
        }
    }
    let ghost p_ops = p;
    let (ocount, p) = match read_u64(b, p) {
        Ok(x) => x,
        Err(e) => {
            proof {
                assert forall|c: CommitV, w: nat| #[trigger] commit_at(b@, c, w) implies false by {
                    lemma_commit_layout(b@, c, w);
                }
            }
            return Err(e);
        },
    };
    proof {
        assert forall|c: CommitV, w: nat| #[trigger] commit_at(b@, c, w) implies c.ops.len() == ocount by {
            lemma_commit_layout(b@, c, w);
            lemma_u64_at(b@, at_ops(c), ocount as nat, c.ops.len());
        }
    }
    if ocount > b.len() as u64 {
        proof {
            assert forall|c: CommitV, w: nat| #[trigger] commit_at(b@, c, w) implies false by {
                lemma_commit_layout(b@, c, w);
            }
        }
        return Err(fail("operation count exceeds input size", p));
    }
    let (ops, p) = match read_ops(b, p, ocount as usize) {
        Ok(x) => x,
        Err(e) => {
            proof {
                assert forall|c: CommitV, w: nat| #[trigger] commit_at(b@, c, w) implies false by {
                    lemma_commit_layout(b@, c, w);
                }
            }
            return Err(e);
        },
    };
    proof {
        assert forall|c: CommitV, w: nat| #[trigger] commit_at(b@, c, w) implies op_views(ops@) == c.ops
            && p == at_msg(c) by {
            lemma_commit_layout(b@, c, w);
        }
        let a1 = enc_bytes(sid@);
        let a2 = a1 + enc_u64(pcount as nat);
        let a3 = a2 + concat(parent_parts(id_views(parents@)));
        let a4 = a3 + enc_u64(ocount as nat);
        lemma_at_split(b@, 0, a1, enc_u64(pcount as nat));
        lemma_at_split(b@, 0, a2, concat(parent_parts(id_views(parents@))));
        lemma_at_split(b@, 0, a3, enc_u64(ocount as nat));
        lemma_at_split(b@, 0, a4, concat(op_parts(op_views(ops@))));
        assert(enc_head(sid@, id_views(parents@), op_views(ops@)) == a4 + concat(op_parts(op_views(ops@))));
    }
    Ok((sid, parents, ops, p))
}

impl CommitRecord {
    /// Strictly parse a commit record: the bytes must be exactly the
    /// encoding of an acceptable record (the verification word reads as
    /// passed when it is 1).
    pub fn parse(bytes: &[u8]) -> (r: Result<CommitRecord, CanonicalError>)
        ensures
            r matches Ok(rec) ==> ops_wf(rec.operations@) && commit_ok(rec@) && exists|w: nat| #[trigger]
                commit_enc_is(bytes@, rec@, w),
            forall|c: CommitV, w: nat| #[trigger]
                commit_enc_is(bytes@, c, w) ==> (r matches Ok(rec) && rec@ == c),
            forall|c: CommitV, w: nat| #[trigger]
                commit_at(bytes@, c, w) && enc_commit_with(c, w).len() < bytes@.len() ==> (r matches Err(e)
                    && e.offset == enc_commit_with(c, w).len() && e.message@
                    == "trailing bytes after commit record"@),
            forall|sid: Seq<u8>, k: u64|
                sid.len() == 32 && k > 2 && #[trigger] is_at(bytes@, 0, enc_bytes(sid) + enc_u64(k as nat))
                    ==> (r matches Err(e) && e.message@ == "commit may have at most two parents"@),
    {
        let b = bytes;
        proof {
            lemma_u64_facts();
            assert(b@.len() == b.len());
            assert forall|c: CommitV, w: nat| #[trigger] commit_enc_is(b@, c, w) implies commit_at(b@, c, w)
                && enc_commit_with(c, w).len() == b@.len() by {
                assert(b@.subrange(0, b@.len() as int) =~= b@);
            }
        }
        let (sid, parents, ops, p) = match parse_head(b) {
            Ok(x) => x,
            Err(e) => {
                return Err(e);
            },
        };
        let ghost ph = p;
        let (message, p) = match read_str(b, p) {
            Ok(x) => x,
            Err(e) => {
                proof {
                    assert forall|c: CommitV, w: nat| #[trigger] commit_at(b@, c, w) implies false by {
                        lemma_commit_layout(b@, c, w);
                    }
                }
                return Err(e);
            },
        };
        let ghost pm = p;
        let (flag, p) = match read_u64(b, p) {
            Ok(x) => x,
            Err(e) => {
                proof {
                    assert forall|c: CommitV, w: nat| #[trigger] commit_at(b@, c, w) implies false by {
                        lemma_commit_layout(b@, c, w);
                    }
                }
                return Err(e);
            },
        };
        let (fcount, p) = match read_u64(b, p) {
            Ok(x) => x,
            Err(e) => {
                proof {
                    assert forall|c: CommitV, w: nat| #[trigger] commit_at(b@, c, w) implies false by {
                        lemma_commit_layout(b@, c, w);
                    }
                }
                return Err(e);
            },
        };
        proof {
            assert forall|c: CommitV, w: nat| #[trigger] commit_at(b@, c, w) implies c.message == message@
                && w == flag && c.failed.len() == fcount by {
                lemma_commit_layout(b@, c, w);
                lemma_u64_at(b@, at_flag(c), flag as nat, w);
                lemma_u64_at(b@, at_flag(c) + 8, fcount as nat, c.failed.len());
            }
        }
        if fcount > b.len() as u64 {
            proof {
                assert forall|c: CommitV, w: nat| #[trigger] commit_at(b@, c, w) implies false by {
                    lemma_commit_layout(b@, c, w);
                }
            }
            return Err(fail("failed-invariant count exceeds input size", p));
        }
        let ghost pfs = p;
        let (failed, p) = match read_strs(b, p, fcount as usize) {
            Ok(x) => x,
            Err(e) => {
                proof {
                    assert forall|c: CommitV, w: nat| #[trigger] commit_at(b@, c, w) implies false by {
                        lemma_commit_layout(b@, c, w);
                    }
                }
                return Err(e);
            },
        };
        proof {
            assert forall|c: CommitV, w: nat| #[trigger] commit_at(b@, c, w) implies text_views(failed@)
                == c.failed && p == enc_commit_with(c, w).len() by {
                lemma_commit_layout(b@, c, w);
            }
        }
        if p != b.len() {
            return Err(fail("trailing bytes after commit record", p));
        }
        let rec = CommitRecord {
            state_id: StateId::from_array(sid),
            parents,
            operations: ops,
            message,
            verification: VerificationSummary { passed: flag == 1, failed_invariants: failed },
        };
        proof {
            let c = rec@;
            assert(commit_ok(c)) by {
                assert forall|i: int| 0 <= i < c.parents.len() implies (#[trigger] c.parents[i]).len() == 32 by {
                    assert(c.parents[i] == rec.parents@[i]@);
                }
                assert forall|i: int| 0 <= i < c.ops.len() implies op_ok(#[trigger] c.ops[i]) by {
                    assert(rec.operations@[i].wf());
                    assert(c.ops[i] == op_view(rec.operations@[i]));
                    if let Operation::AddNode { metadata, .. } = rec.operations@[i] {
                        metadata.lemma_entries();
                    }
                }
            }
            assert(enc_commit_with(c, flag as nat) == b@) by {
                let h = enc_head(c.state, c.parents, c.ops);
                let a6 = h + enc_str(c.message);
                let a7 = a6 + enc_u64(flag as nat);
                let a8 = a7 + enc_u64(c.failed.len());
                lemma_at_split(b@, 0, h, enc_str(c.message));
                lemma_at_split(b@, 0, a6, enc_u64(flag as nat));
                lemma_at_split(b@, 0, a7, enc_u64(c.failed.len()));
                lemma_at_split(b@, 0, a8, concat(str_parts(c.failed)));
                assert(b@.subrange(0, b@.len() as int) =~= b@);
                assert(enc_commit_with(c, flag as nat) =~= a8 + concat(str_parts(c.failed)));
            }
            assert(commit_enc_is(b@, c, flag as nat));
            assert forall|c2: CommitV, w2: nat| #[trigger] commit_enc_is(b@, c2, w2) implies c2 == c by {
                assert(commit_at(b@, c2, w2));
            }
        }
        Ok(rec)
    }
}

} // verus!
