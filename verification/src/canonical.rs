//! Canonical serialization: one logical state, exactly one byte sequence.
//!
//! Layout:
//! 1. a `u16` little-endian format version tag precedes all content;
//! 2. collections are written in their total (ascending) order;
//! 3. every length and count is a `u64` little-endian; strings are UTF-8;
//! 4. nothing ambient (no timestamps, hosts, pointers), no floating point;
//! 5. parsing is total and strict: unknown versions, truncation, invalid
//!    UTF-8, invalid identifiers, unsorted or duplicate keys, dangling link
//!    endpoints and trailing bytes are errors, never a partial state.
//!
//! The encoding is stated as the spec function [`canon`] over the network's
//! view. [`canonical_bytes`] produces exactly `canon(view)`, and
//! [`parse_canonical`] accepts exactly the encodings of encodable networks,
//! giving back the network encoded: re-encoding a parsed value reproduces
//! the bytes, and parsing an encoding reproduces the value.
use vstd::prelude::*;
use vstd::bytes::*;
use vstd::slice::slice_to_vec;
use vstd::string::StringSliceAdditionalSpecFns;
use vstd::slice::slice_subrange;
use vstd::utf8::*;
use crate::text::{Compared, group_str_order, sbytes, str_lt, str_less, lemma_sbytes_injective, string_from_utf8, owned};
use crate::seqs::{
    concat, lemma_concat_take, sorted_by, strict_order, enumerates, sorted_enum, lemma_sorted_enum,
    total, lemma_sorted_enum_exists, lemma_concat_around, lemma_concat_push, lemma_concat_len_at_least,
};
use crate::sorted_map::SortKey;
use crate::model::{
    Metadata, Node, Link, Network, State, NetworkV, NodeV, InterfaceV, LinkV, LinkKeyV, EndpointV,
    Interface, Endpoint, lk_lt, ep_lt, valid_id, validate_id, ep_less,
};

verus! {

broadcast use group_str_order;

/// Version tag of the canonical state encoding.
pub const CANONICAL_FORMAT_VERSION: u16 = 1;

/// The little-endian bytes of a count or length.
pub open spec fn enc_u64(x: nat) -> Seq<u8> {
    spec_u64_to_le_bytes(x as u64)
}

/// A length-prefixed UTF-8 string.
pub open spec fn enc_str(s: Seq<char>) -> Seq<u8> {
    enc_u64(sbytes(s).len()) + sbytes(s)
}

/// The string order as a relation.
pub open spec fn str_order_fn() -> spec_fn(Seq<char>, Seq<char>) -> bool {
    |a: Seq<char>, b: Seq<char>| str_lt(a, b)
}

/// The link-key order as a relation.
pub open spec fn key_order_fn() -> spec_fn(LinkKeyV, LinkKeyV) -> bool {
    |a: LinkKeyV, b: LinkKeyV| lk_lt(a, b)
}

/// A finite set of strings in ascending order.
pub open spec fn sorted_strs(d: Set<Seq<char>>) -> Seq<Seq<char>> {
    sorted_enum(d, str_order_fn())
}

/// A finite set of link keys in ascending order.
pub open spec fn sorted_keys(d: Set<LinkKeyV>) -> Seq<LinkKeyV> {
    sorted_enum(d, key_order_fn())
}

/// One metadata entry.
pub open spec fn enc_entry(k: Seq<char>, v: Seq<char>) -> Seq<u8> {
    enc_str(k) + enc_str(v)
}

/// The metadata entries, in key order.
pub open spec fn md_parts(m: Map<Seq<char>, Seq<char>>) -> Seq<Seq<u8>> {
    sorted_strs(m.dom()).map_values(|k: Seq<char>| enc_entry(k, m[k]))
}

/// Metadata: the entry count, then the entries in key order.
#[verifier::opaque]
pub open spec fn enc_md(m: Map<Seq<char>, Seq<char>>) -> Seq<u8> {
    enc_u64(sorted_strs(m.dom()).len()) + concat(md_parts(m))
}

/// An interface: its name, then its metadata.
#[verifier::opaque]
pub open spec fn enc_iface(i: InterfaceV) -> Seq<u8> {
    enc_str(i.name) + enc_md(i.metadata)
}

/// A node's interfaces, in name order.
pub open spec fn iface_parts(v: NodeV) -> Seq<Seq<u8>> {
    sorted_strs(v.interfaces.dom()).map_values(|k: Seq<char>| enc_iface(v.interfaces[k]))
}

/// A node: id, metadata, interface count, interfaces in name order.
#[verifier::opaque]
pub open spec fn enc_node(v: NodeV) -> Seq<u8> {
    enc_str(v.id) + enc_md(v.metadata) + enc_u64(sorted_strs(v.interfaces.dom()).len()) + concat(
        iface_parts(v),
    )
}

/// An endpoint: node, then interface.
pub open spec fn enc_ep(e: EndpointV) -> Seq<u8> {
    enc_str(e.0) + enc_str(e.1)
}

/// A link: its normalized endpoints, then its metadata.
pub open spec fn enc_link(l: LinkV) -> Seq<u8> {
    enc_ep(l.a) + enc_ep(l.b) + enc_md(l.metadata)
}

/// The nodes, in id order.
pub open spec fn node_parts(n: NetworkV) -> Seq<Seq<u8>> {
    sorted_strs(n.nodes.dom()).map_values(|k: Seq<char>| enc_node(n.nodes[k]))
}

/// The links, in key order.
pub open spec fn link_parts(n: NetworkV) -> Seq<Seq<u8>> {
    sorted_keys(n.links.dom()).map_values(|k: LinkKeyV| enc_link(n.links[k]))
}

/// The canonical encoding of a network.
#[verifier::opaque]
pub open spec fn canon(n: NetworkV) -> Seq<u8> {
    spec_u16_to_le_bytes(CANONICAL_FORMAT_VERSION) + enc_u64(sorted_strs(n.nodes.dom()).len())
        + concat(node_parts(n)) + enc_u64(sorted_keys(n.links.dom()).len()) + concat(
        link_parts(n),
    )
}

/// A network that can be encoded: structurally valid, with finite metadata
/// everywhere.
pub open spec fn encodable(n: NetworkV) -> bool {
    &&& n.valid()
    &&& forall|k: Seq<char>| #[trigger]
        n.nodes.dom().contains(k) ==> n.nodes[k].metadata.dom().finite()
    &&& forall|k: Seq<char>, j: Seq<char>|
        n.nodes.dom().contains(k) && #[trigger] n.nodes[k].interfaces.dom().contains(j)
            ==> n.nodes[k].interfaces[j].metadata.dom().finite()
    &&& forall|lk: LinkKeyV| #[trigger]
        n.links.dom().contains(lk) ==> n.links[lk].metadata.dom().finite()
}

/// The string order is a strict total order.
pub proof fn lemma_str_strict()
    ensures
        strict_order(str_order_fn()),
        total(str_order_fn()),
{
}

/// The link-key order is a strict total order.
pub proof fn lemma_key_strict()
    ensures
        strict_order(key_order_fn()),
        total(key_order_fn()),
{
}

/// Every well-formed network is encodable.
pub proof fn lemma_encodable(net: &Network)
    requires
        net.wf(),
    ensures
        encodable(net@),
{
    net.lemma_metadata_finite();
}

/// The canonical bytes of a well-formed network are an encoding of that
/// network, so parsing them gives it back; re-encoding gives the same bytes.
pub proof fn law_canonical_round_trip(net: &Network)
    requires
        net.wf(),
    ensures
        net_is(canon(net@), net@),
{
    lemma_encodable(net);
    assert(canon(net@).subrange(0, canon(net@).len() as int) =~= canon(net@));
}

/// The ascending keys of well-formed metadata are its entries' keys.
proof fn lemma_md_order(m: &Metadata)
    requires
        m.wf(),
    ensures
        sorted_strs(m@.dom()) == m.entries().map_values(|e: (Seq<char>, Seq<char>)| e.0),
        forall|i: int|
            #![trigger m.entries()[i]]
            0 <= i < m.entries().len() ==> m@[m.entries()[i].0] == m.entries()[i].1,
{
    m.lemma_entries();
    lemma_str_strict();
    let ks = m.entries().map_values(|e: (Seq<char>, Seq<char>)| e.0);
    assert(sorted_by(ks, str_order_fn())) by {
        assert forall|i: int, j: int| 0 <= i < j < ks.len() implies (str_order_fn())(
            #[trigger] ks[i],
            #[trigger] ks[j],
        ) by {
            assert(ks[i] == m.entries()[i].0);
            assert(ks[j] == m.entries()[j].0);
        }
    }
    assert(enumerates(ks, m@.dom())) by {
        assert forall|x: Seq<char>| #[trigger] m@.dom().contains(x) <==> ks.contains(x) by {
            if m@.dom().contains(x) {
                let i = choose|i: int| 0 <= i < m.entries().len() && m.entries()[i].0 == x;
                assert(ks[i] == x);
            }
            if ks.contains(x) {
                let i = choose|i: int| 0 <= i < ks.len() && ks[i] == x;
                assert(m.entries()[i].0 == x);
            }
        }
    }
    lemma_sorted_enum(ks, m@.dom(), str_order_fn());
}

/// The entries of a metadata map, in ascending key order.
pub open spec fn md_entries(m: Map<Seq<char>, Seq<char>>) -> Seq<(Seq<char>, Seq<char>)> {
    sorted_strs(m.dom()).map_values(|k: Seq<char>| (k, m[k]))
}

/// The entries of well-formed metadata are its map's, in key order.
pub proof fn lemma_md_entries(m: &Metadata)
    requires
        m.wf(),
    ensures
        m.entries() == md_entries(m@),
{
    lemma_md_order(m);
    let ks = m.entries().map_values(|e: (Seq<char>, Seq<char>)| e.0);
    assert forall|i: int| 0 <= i < m.entries().len() implies #[trigger] m.entries()[i] == md_entries(m@)[i] by {
        assert(ks[i] == m.entries()[i].0);
    }
    assert(m.entries() =~= md_entries(m@));
}

/// Append the bytes of a count.
pub(crate) fn put_u64(buf: &mut Vec<u8>, x: u64)
    ensures
        final(buf)@ == old(buf)@ + enc_u64(x as nat),
{
    let mut b = u64_to_le_bytes(x);
    buf.append(&mut b);
}

/// Append a length-prefixed string.
pub(crate) fn put_str(buf: &mut Vec<u8>, s: &str)
    ensures
        final(buf)@ == old(buf)@ + enc_str(s@),
{
    let b = s.as_bytes();
    put_u64(buf, b.len() as u64);
    let mut v = slice_to_vec(b);
    buf.append(&mut v);
    proof {
        assert(b@ == sbytes(s@));
        assert(final(buf)@ =~= old(buf)@ + enc_str(s@));
    }
}

/// Append metadata.
pub(crate) fn put_md(buf: &mut Vec<u8>, m: &Metadata)
    requires
        m.wf(),
    ensures
        final(buf)@ == old(buf)@ + enc_md(m@),
{
    let ghost start = buf@;
    proof {
        lemma_md_order(m);
        m.lemma_entries();
    }
    let n = m.len();
    put_u64(buf, n as u64);
    let ghost parts = md_parts(m@);
    let mut i: usize = 0;
    while i < n
        invariant
            m.wf(),
            n == m.entries().len(),
            parts == md_parts(m@),
            parts.len() == n,
            sorted_strs(m@.dom()) == m.entries().map_values(|e: (Seq<char>, Seq<char>)| e.0),
            forall|j: int|
                #![trigger m.entries()[j]]
                0 <= j < m.entries().len() ==> m@[m.entries()[j].0] == m.entries()[j].1,
            i <= n,
            buf@ == start + enc_u64(n as nat) + concat(parts.take(i as int)),
        decreases n - i,
    {
        let (k, v) = m.entry_at(i);
        let ghost before = buf@;
        put_str(buf, k.as_str());
        put_str(buf, v.as_str());
        proof {
            assert(parts[i as int] == enc_entry(k@, v@)) by {
                assert(sorted_strs(m@.dom())[i as int] == m.entries()[i as int].0);
                assert(m@[m.entries()[i as int].0] == m.entries()[i as int].1);
            }
            lemma_concat_take(parts, i as int);
            assert(buf@ =~= before + parts[i as int]);
        }
        i = i + 1;
    }
    proof {
        assert(parts.take(n as int) =~= parts);
        reveal(enc_md);
    }
}

/// Append a node.
fn put_node(buf: &mut Vec<u8>, node: &Node)
    requires
        node.wf(),
    ensures
        final(buf)@ == old(buf)@ + enc_node(node@),
{
    let ghost start = buf@;
    proof {
        node.lemma_interface_names();
        lemma_str_strict();
        lemma_sorted_enum(node.interface_names(), node@.interfaces.dom(), str_order_fn());
    }
    put_str(buf, node.id_ref().as_str());
    put_md(buf, node.metadata_ref());
    let n = node.interface_count();
    put_u64(buf, n as u64);
    let ghost head = buf@;
    let ghost parts = iface_parts(node@);
    let mut i: usize = 0;
    while i < n
        invariant
            node.wf(),
            n == node@.interfaces.dom().len(),
            n == node.interface_names().len(),
            parts == iface_parts(node@),
            sorted_strs(node@.interfaces.dom()) == node.interface_names(),
            parts.len() == n,
            i <= n,
            buf@ == head + concat(parts.take(i as int)),
        decreases n - i,
    {
        let ifc = node.interface_at(i);
        let ghost before = buf@;
        put_str(buf, ifc.name.as_str());
        put_md(buf, &ifc.metadata);
        proof {
            reveal(enc_iface);
            assert(parts[i as int] == enc_iface(ifc@));
            lemma_concat_take(parts, i as int);
            assert(buf@ =~= before + parts[i as int]);
        }
        i = i + 1;
    }
    proof {
        assert(parts.take(n as int) =~= parts);
        reveal(enc_node);
        assert(buf@ =~= start + enc_node(node@));
    }
}

/// Append a link.
fn put_link(buf: &mut Vec<u8>, l: &Link)
    requires
        l.metadata.wf(),
    ensures
        final(buf)@ == old(buf)@ + enc_link(l@),
{
    let ghost start = buf@;
    put_str(buf, l.a.node.as_str());
    put_str(buf, l.a.iface.as_str());
    put_str(buf, l.b.node.as_str());
    put_str(buf, l.b.iface.as_str());
    put_md(buf, &l.metadata);
    proof {
        assert(buf@ =~= start + enc_link(l@));
    }
}

/// Encode a state canonically.
pub fn canonical_bytes(state: &State) -> (r: Vec<u8>)
    requires
        state.network.wf(),
    ensures
        r@ == canon(state.network@),
{
    let net = &state.network;
    proof {
        net.lemma_orders();
        lemma_str_strict();
        lemma_key_strict();
        lemma_sorted_enum(net.node_ids(), net@.nodes.dom(), str_order_fn());
        lemma_sorted_enum(net.link_keys(), net@.links.dom(), key_order_fn());
    }
    let mut buf: Vec<u8> = u16_to_le_bytes(CANONICAL_FORMAT_VERSION);
    let nn = net.node_count();
    put_u64(&mut buf, nn as u64);
    let ghost head = buf@;
    let ghost parts = node_parts(net@);
    let mut i: usize = 0;
    while i < nn
        invariant
            net.wf(),
            nn == net.node_ids().len(),
            parts == node_parts(net@),
            sorted_strs(net@.nodes.dom()) == net.node_ids(),
            parts.len() == nn,
            i <= nn,
            buf@ == head + concat(parts.take(i as int)),
        decreases nn - i,
    {
        let node = net.node_at(i);
        let ghost before = buf@;
        put_node(&mut buf, node);
        proof {
            lemma_concat_take(parts, i as int);
            assert(buf@ =~= before + parts[i as int]);
        }
        i = i + 1;
    }
    proof {
        assert(parts.take(nn as int) =~= parts);
    }
    let nl = net.link_count();
    put_u64(&mut buf, nl as u64);
    let ghost head2 = buf@;
    let ghost lparts = link_parts(net@);
    let mut j: usize = 0;
    while j < nl
        invariant
            net.wf(),
            nl == net.link_keys().len(),
            lparts == link_parts(net@),
            sorted_keys(net@.links.dom()) == net.link_keys(),
            lparts.len() == nl,
            j <= nl,
            buf@ == head2 + concat(lparts.take(j as int)),
        decreases nl - j,
    {
        let l = net.link_at(j);
        let ghost before = buf@;
        put_link(&mut buf, l);
        proof {
            lemma_concat_take(lparts, j as int);
            assert(buf@ =~= before + lparts[j as int]);
        }
        j = j + 1;
    }
    proof {
        assert(lparts.take(nl as int) =~= lparts);
        reveal(canon);
        assert(buf@ =~= canon(net@));
    }
    buf
}

/// Strict canonical parsing failure, with the offset where it was found.
#[derive(Debug, Clone, PartialEq, Eq)]
pub struct CanonicalError {
    pub message: String,
    pub offset: usize,
}

pub(crate) fn fail(message: &str, offset: usize) -> (e: CanonicalError)
    ensures
        e.message@ == message@,
        e.offset == offset,
{
    CanonicalError { message: owned(message), offset }
}

/// `e` stands in `b` from position `pos`.
pub open spec fn is_at(b: Seq<u8>, pos: int, e: Seq<u8>) -> bool {
    &&& 0 <= pos
    &&& pos + e.len() <= b.len()
    &&& b.subrange(pos, pos + e.len()) == e
}

pub(crate) proof fn lemma_at_split(b: Seq<u8>, pos: int, x: Seq<u8>, y: Seq<u8>)
    ensures
        is_at(b, pos, x + y) <==> is_at(b, pos, x) && is_at(b, pos + x.len(), y),
{
    if is_at(b, pos, x + y) {
        assert(b.subrange(pos, pos + x.len()) =~= (x + y).subrange(0, x.len() as int));
        assert((x + y).subrange(0, x.len() as int) =~= x);
        assert(b.subrange(pos + x.len(), pos + x.len() + y.len()) =~= (x + y).subrange(
            x.len() as int,
            (x.len() + y.len()) as int,
        ));
        assert((x + y).subrange(x.len() as int, (x.len() + y.len()) as int) =~= y);
    }
    if is_at(b, pos, x) && is_at(b, pos + x.len(), y) {
        assert(b.subrange(pos, pos + (x + y).len()) =~= x + y) by {
            assert forall|i: int| 0 <= i < (x + y).len() implies b.subrange(pos, pos + (x + y).len())[i]
                == (x + y)[i] by {
                if i < x.len() {
                    assert(b.subrange(pos, pos + x.len())[i] == x[i]);
                } else {
                    assert(b.subrange(pos + x.len(), pos + x.len() + y.len())[i - x.len()] == y[i
                        - x.len()]);
                }
            }
        }
    }
}

/// Part `i` of a concatenation stands after the parts before it.
pub(crate) proof fn lemma_part_at(b: Seq<u8>, pos: int, parts: Seq<Seq<u8>>, i: int)
    requires
        is_at(b, pos, concat(parts)),
        0 <= i < parts.len(),
    ensures
        is_at(b, pos + concat(parts.take(i)).len(), parts[i]),
{
    lemma_concat_around(parts, i);
    lemma_at_split(b, pos, concat(parts.take(i)) + parts[i], concat(parts.skip(i + 1)));
    lemma_at_split(b, pos, concat(parts.take(i)), parts[i]);
}

pub(crate) proof fn lemma_u64_facts()
    ensures
        forall|x: nat| #[trigger] enc_u64(x).len() == 8,
        forall|x: u64| #[trigger] spec_u64_from_le_bytes(spec_u64_to_le_bytes(x)) == x,
{
    lemma_auto_spec_u64_to_from_le_bytes();
    assert forall|x: nat| #[trigger] enc_u64(x).len() == 8 by {
        assert(spec_u64_to_le_bytes(x as u64).len() == 8);
    }
}

/// Two counts encoded at the same place are equal.
pub(crate) proof fn lemma_u64_at(b: Seq<u8>, pos: int, x: nat, y: nat)
    requires
        is_at(b, pos, enc_u64(x)),
        is_at(b, pos, enc_u64(y)),
        x <= u64::MAX,
        y <= u64::MAX,
    ensures
        x == y,
{
    lemma_u64_facts();
    assert(enc_u64(x) == enc_u64(y));
    assert(spec_u64_from_le_bytes(spec_u64_to_le_bytes(x as u64)) == x as u64);
    assert(spec_u64_from_le_bytes(spec_u64_to_le_bytes(y as u64)) == y as u64);
}

/// Read a count.
pub(crate) fn read_u64(b: &[u8], pos: usize) -> (r: Result<(u64, usize), CanonicalError>)
    requires
        pos <= b@.len(),
    ensures
        r is Ok <==> pos + 8 <= b@.len(),
        r matches Ok((x, p)) ==> p == pos + 8 && is_at(b@, pos as int, enc_u64(x as nat)),
{
    if b.len() - pos < 8 {
        return Err(fail("unexpected end of input", pos));
    }
    let s = slice_subrange(b, pos, pos + 8);
    let x = u64_from_le_bytes(s);
    proof {
        lemma_auto_spec_u64_to_from_le_bytes();
        assert(spec_u64_to_le_bytes(spec_u64_from_le_bytes(s@)) == s@);
    }
    Ok((x, pos + 8))
}

/// Read a length-prefixed UTF-8 string.
pub(crate) fn read_str(b: &[u8], pos: usize) -> (r: Result<(String, usize), CanonicalError>)
    requires
        pos <= b@.len(),
    ensures
        r matches Ok((s, p)) ==> p == pos + enc_str(s@).len() && is_at(b@, pos as int, enc_str(s@)),
        forall|t: Seq<char>| #[trigger]
            is_at(b@, pos as int, enc_str(t)) ==> (r matches Ok((s, _)) && s@ == t),
{
    proof {
        lemma_u64_facts();
    }
    let rl = read_u64(b, pos);
    let (len, p) = match rl {
        Ok(x) => x,
        Err(e) => {
            proof {
                assert forall|t: Seq<char>| #[trigger] is_at(b@, pos as int, enc_str(t)) implies false by {
                    lemma_at_split(b@, pos as int, enc_u64(sbytes(t).len()), sbytes(t));
                }
            }
            return Err(e);
        },
    };
    if len > (b.len() - p) as u64 {
        proof {
            assert forall|t: Seq<char>| #[trigger] is_at(b@, pos as int, enc_str(t)) implies false by {
                lemma_at_split(b@, pos as int, enc_u64(sbytes(t).len()), sbytes(t));
                lemma_u64_at(b@, pos as int, len as nat, sbytes(t).len());
            }
        }
        return Err(fail("length prefix exceeds remaining input", p));
    }
    let n = len as usize;
    let bytes = slice_subrange(b, p, p + n);
    let v = slice_to_vec(bytes);
    match string_from_utf8(v) {
        None => {
            proof {
                assert forall|t: Seq<char>| #[trigger] is_at(b@, pos as int, enc_str(t)) implies false by {
                    lemma_at_split(b@, pos as int, enc_u64(sbytes(t).len()), sbytes(t));
                    lemma_u64_at(b@, pos as int, len as nat, sbytes(t).len());
                    assert(v@ == sbytes(t));
                    encode_utf8_valid_utf8(t);
                }
            }
            Err(fail("invalid UTF-8 in string", p))
        },
        Some(s) => {
            proof {
                assert(sbytes(s@) == b@.subrange(p as int, p + n));
                lemma_at_split(b@, pos as int, enc_u64(sbytes(s@).len()), sbytes(s@));
                assert forall|t: Seq<char>| #[trigger] is_at(b@, pos as int, enc_str(t)) implies s@ == t by {
                    lemma_at_split(b@, pos as int, enc_u64(sbytes(t).len()), sbytes(t));
                    lemma_u64_at(b@, pos as int, len as nat, sbytes(t).len());
                    lemma_sbytes_injective(s@, t);
                }
            }
            Ok((s, p + n))
        },
    }
}

/// The encodings of paired keys and values.
pub open spec fn entry_parts(ks: Seq<Seq<char>>, vs: Seq<Seq<char>>) -> Seq<Seq<u8>> {
    Seq::new(ks.len(), |j: int| enc_entry(ks[j], vs[j]))
}

/// Finite metadata `t` is encoded at `pos`.
pub open spec fn md_at(b: Seq<u8>, pos: int, t: Map<Seq<char>, Seq<char>>) -> bool {
    t.dom().finite() && is_at(b, pos, enc_md(t))
}

proof fn lemma_md_shape(b: Seq<u8>, pos: int, t: Map<Seq<char>, Seq<char>>)
    requires
        md_at(b, pos, t),
    ensures
        sorted_by(sorted_strs(t.dom()), str_order_fn()),
        enumerates(sorted_strs(t.dom()), t.dom()),
        is_at(b, pos, enc_u64(sorted_strs(t.dom()).len())),
        is_at(b, pos + 8, concat(md_parts(t))),
        sorted_strs(t.dom()).len() <= b.len(),
        md_parts(t).len() == sorted_strs(t.dom()).len(),
{
    reveal(enc_md);
    lemma_str_strict();
    lemma_sorted_enum_exists(t.dom(), str_order_fn());
    lemma_u64_facts();
    lemma_at_split(b, pos, enc_u64(sorted_strs(t.dom()).len()), concat(md_parts(t)));
    let parts = md_parts(t);
    assert forall|j: int| 0 <= j < parts.len() implies (#[trigger] parts[j]).len() >= 1 by {
        assert(enc_u64(sbytes(sorted_strs(t.dom())[j]).len()).len() == 8);
    }
    lemma_concat_len_at_least(parts, 1);
}

/// Read metadata.
pub(crate) fn read_md(b: &[u8], pos: usize) -> (r: Result<(Metadata, usize), CanonicalError>)
    requires
        pos <= b@.len(),
    ensures
        r matches Ok((m, p)) ==> m.wf() && m@.dom().finite() && p == pos + enc_md(m@).len()
            && is_at(b@, pos as int, enc_md(m@)),
        forall|t: Map<Seq<char>, Seq<char>>| #[trigger]
            md_at(b@, pos as int, t) ==> (r matches Ok((m, _)) && m@ == t),
{
    let ghost has = exists|t: Map<Seq<char>, Seq<char>>| md_at(b@, pos as int, t);
    let ghost tt = choose|t: Map<Seq<char>, Seq<char>>| md_at(b@, pos as int, t);
    let blen = b.len();
    proof {
        lemma_u64_facts();
        lemma_str_strict();
        if has {
            lemma_md_shape(b@, pos as int, tt);
        }
    }
    let rc = read_u64(b, pos);
    let (count, p0) = match rc {
        Ok(x) => x,
        Err(e) => {
            return Err(e);
        },
    };
    proof {
        assert forall|t: Map<Seq<char>, Seq<char>>| #[trigger] md_at(b@, pos as int, t) implies sorted_strs(
            t.dom(),
        ).len() == count by {
            lemma_md_shape(b@, pos as int, t);
            lemma_u64_at(b@, pos as int, count as nat, sorted_strs(t.dom()).len());
        }
    }
    let mut md = Metadata::new();
    let mut cur = p0;
    let mut last: Option<String> = None;
    let ghost mut ks = Seq::<Seq<char>>::empty();
    let ghost mut vs = Seq::<Seq<char>>::empty();
    let mut i: u64 = 0;
    proof {
        assert(entry_parts(ks, vs) =~= Seq::<Seq<u8>>::empty());
        assert(b@.subrange(p0 as int, p0 as int) =~= concat(entry_parts(ks, vs)));
    }
    while i < count
        invariant
            has == exists|t: Map<Seq<char>, Seq<char>>| md_at(b@, pos as int, t),
            has ==> md_at(b@, pos as int, tt),
            pos + 8 == p0,
            p0 <= cur <= b@.len(),
            is_at(b@, pos as int, enc_u64(count as nat)),
            i <= count,
            ks.len() == i,
            vs.len() == i,
            md.wf(),
            sorted_by(ks, str_order_fn()),
            strict_order(str_order_fn()),
            total(str_order_fn()),
            forall|j: int| 0 <= j < i ==> md@.dom().contains(#[trigger] ks[j]) && md@[ks[j]] == vs[j],
            forall|k: Seq<char>| #[trigger] md@.dom().contains(k) ==> ks.contains(k),
            last matches Some(l) ==> (i > 0 && l@ == ks[i - 1]),
            i > 0 ==> last is Some,
            is_at(b@, p0 as int, concat(entry_parts(ks, vs))),
            cur == p0 + concat(entry_parts(ks, vs)).len(),
            forall|t: Map<Seq<char>, Seq<char>>| #[trigger]
                md_at(b@, pos as int, t) ==> sorted_strs(t.dom()).len() == count
                    && sorted_strs(t.dom()).take(i as int) == ks && forall|j: int|
                    0 <= j < i ==> t[ks[j]] == #[trigger] vs[j],
        decreases count - i,
    {
        let ghost ks0 = ks;
        let ghost vs0 = vs;
        proof {
            assert forall|t: Map<Seq<char>, Seq<char>>| #[trigger] md_at(b@, pos as int, t) implies is_at(
                b@,
                cur as int,
                enc_entry(sorted_strs(t.dom())[i as int], t[sorted_strs(t.dom())[i as int]]),
            ) by {
                lemma_md_shape(b@, pos as int, t);
                lemma_part_at(b@, p0 as int, md_parts(t), i as int);
                assert(md_parts(t).take(i as int) =~= entry_parts(ks, vs)) by {
                    assert forall|j: int| 0 <= j < i implies md_parts(t).take(i as int)[j] == entry_parts(ks, vs)[j] by {
                        assert(sorted_strs(t.dom()).take(i as int)[j] == ks[j]);
                    }
                }
            }
            assert forall|t: Map<Seq<char>, Seq<char>>| #[trigger] md_at(b@, pos as int, t) implies is_at(
                b@,
                cur as int,
                enc_str(sorted_strs(t.dom())[i as int]),
            ) && is_at(
                b@,
                cur + enc_str(sorted_strs(t.dom())[i as int]).len(),
                enc_str(t[sorted_strs(t.dom())[i as int]]),
            ) by {
                let k = sorted_strs(t.dom())[i as int];
                lemma_at_split(b@, cur as int, enc_str(k), enc_str(t[k]));
            }
        }
        let rk = read_str(b, cur);
        let (k, p1) = match rk {
            Ok(x) => x,
            Err(e) => {
                proof {
                    if has {
                        assert(md_at(b@, pos as int, tt));
                        assert(is_at(b@, cur as int, enc_str(sorted_strs(tt.dom())[i as int])));
                    }
                }
                return Err(e);
            },
        };
        proof {
            assert forall|t: Map<Seq<char>, Seq<char>>| #[trigger] md_at(b@, pos as int, t) implies sorted_strs(
                t.dom(),
            )[i as int] == k@ && is_at(b@, p1 as int, enc_str(t[k@])) by {
                assert(is_at(b@, cur as int, enc_str(sorted_strs(t.dom())[i as int])));
            }
        }
        let rv = read_str(b, p1);
        let (v, p2) = match rv {
            Ok(x) => x,
            Err(e) => {
                proof {
                    if has {
                        assert(md_at(b@, pos as int, tt));
                        assert(is_at(b@, p1 as int, enc_str(tt[k@])));
                    }
                }
                return Err(e);
            },
        };
        proof {
            assert forall|t: Map<Seq<char>, Seq<char>>| #[trigger] md_at(b@, pos as int, t) implies t[k@]
                == v@ by {
                assert(is_at(b@, p1 as int, enc_str(t[k@])));
            }
        }
        match &last {
            Some(l) => {
                if !str_less(l.as_str(), k.as_str()) {
                    proof {
                        if has {
                            assert(md_at(b@, pos as int, tt));
                            lemma_md_shape(b@, pos as int, tt);
                            let ts = sorted_strs(tt.dom());
                            assert(ts.take(i as int)[i - 1] == ks[i - 1]);
                            assert(str_lt(ts[i - 1], ts[i as int]));
                        }
                    }
                    return Err(fail("metadata keys are not in strictly ascending order", cur));
                }
            },
            None => {},
        }
        let ghost kv = k@;
        let ghost vv = v@;
        proof {
            assert forall|j: int| 0 <= j < i implies str_lt(#[trigger] ks[j], kv) by {
                if j < i - 1 {
                    assert(str_lt(ks[j], ks[i - 1]));
                }
            }
            assert(!md@.dom().contains(kv)) by {
                if md@.dom().contains(kv) {
                    let j = choose|j: int| 0 <= j < ks.len() && ks[j] == kv;
                    assert(str_lt(ks[j], kv));
                }
            }
        }
        let kc = k.clone();
        if md.insert(k, v).is_some() {
            return Err(fail("duplicate metadata key", cur));
        }
        proof {
            ks = ks.push(kv);
            vs = vs.push(vv);
            assert(entry_parts(ks, vs) =~= entry_parts(ks0, vs0).push(enc_entry(kv, vv)));
            lemma_concat_push(entry_parts(ks0, vs0), enc_entry(kv, vv));
            lemma_at_split(b@, cur as int, enc_str(kv), enc_str(vv));
            lemma_at_split(b@, p0 as int, concat(entry_parts(ks0, vs0)), enc_entry(kv, vv));
            assert forall|j: int| 0 <= j < i + 1 implies md@.dom().contains(#[trigger] ks[j]) && md@[ks[j]]
                == vs[j] by {
                if j < i {
                    assert(ks[j] == ks0[j]);
                    assert(str_lt(ks0[j], kv));
                }
            }
            assert forall|x: Seq<char>| #[trigger] md@.dom().contains(x) implies ks.contains(x) by {
                if x != kv {
                    assert(ks0.contains(x));
                    let j = choose|j: int| 0 <= j < ks0.len() && ks0[j] == x;
                    assert(ks[j] == x);
                } else {
                    assert(ks[i as int] == kv);
                }
            }
            assert(sorted_by(ks, str_order_fn())) by {
                assert forall|x: int, y: int| 0 <= x < y < ks.len() implies (str_order_fn())(
                    #[trigger] ks[x],
                    #[trigger] ks[y],
                ) by {
                    if y == i {
                        assert(str_lt(ks0[x], kv));
                    } else {
                        assert(ks[x] == ks0[x] && ks[y] == ks0[y]);
                    }
                }
            }
            assert forall|t: Map<Seq<char>, Seq<char>>| #[trigger] md_at(b@, pos as int, t) implies sorted_strs(
                t.dom(),
            ).len() == count && sorted_strs(t.dom()).take(i + 1) == ks && forall|j: int|
                0 <= j < i + 1 ==> t[ks[j]] == #[trigger] vs[j] by {
                assert(sorted_strs(t.dom()).take(i as int) == ks0);
                assert(sorted_strs(t.dom()).take(i + 1) =~= ks);
                assert forall|j: int| 0 <= j < i + 1 implies t[ks[j]] == #[trigger] vs[j] by {
                    if j < i {
                        assert(ks[j] == ks0[j] && vs[j] == vs0[j]);
                    }
                }
            }
        }
        last = Some(kc);
        cur = p2;
        i = i + 1;
    }
    proof {
        reveal(enc_md);
        md.lemma_entries();
        assert(enumerates(ks, md@.dom())) by {
            assert forall|x: Seq<char>| #[trigger] md@.dom().contains(x) <==> ks.contains(x) by {
                if ks.contains(x) {
                    let j = choose|j: int| 0 <= j < ks.len() && ks[j] == x;
                    assert(md@.dom().contains(ks[j]));
                }
            }
        }
        lemma_sorted_enum(ks, md@.dom(), str_order_fn());
        assert(md_parts(md@) =~= entry_parts(ks, vs)) by {
            assert forall|j: int| 0 <= j < ks.len() implies md_parts(md@)[j] == entry_parts(ks, vs)[j] by {
                assert(md@.dom().contains(ks[j]));
            }
        }
        lemma_at_split(b@, pos as int, enc_u64(count as nat), concat(md_parts(md@)));
        assert forall|t: Map<Seq<char>, Seq<char>>| #[trigger] md_at(b@, pos as int, t) implies md@ == t by {
            lemma_md_shape(b@, pos as int, t);
            let ts = sorted_strs(t.dom());
            assert(ts.take(count as int) =~= ts);
            assert(ts == ks);
            assert forall|x: Seq<char>| #[trigger] t.dom().contains(x) <==> md@.dom().contains(x) by {
                assert(t.dom().contains(x) <==> ts.contains(x));
            }
            assert forall|x: Seq<char>| #[trigger] t.dom().contains(x) implies t[x] == md@[x] by {
                assert(ts.contains(x));
                let j = choose|j: int| 0 <= j < ts.len() && ts[j] == x;
                assert(t[ks[j]] == vs[j]);
            }
            assert(t =~= md@);
        }
    }
    Ok((md, cur))
}

/// An interface with a valid name and finite metadata is encoded at `pos`.
pub open spec fn iface_at(b: Seq<u8>, pos: int, t: InterfaceV) -> bool {
    valid_id(t.name) && t.metadata.dom().finite() && is_at(b, pos, enc_iface(t))
}

/// Read an interface.
fn read_iface(b: &[u8], pos: usize) -> (r: Result<(Interface, usize), CanonicalError>)
    requires
        pos <= b@.len(),
    ensures
        r matches Ok((x, p)) ==> x.metadata.wf() && valid_id(x.name@) && x@.metadata.dom().finite()
            && p == pos + enc_iface(x@).len() && is_at(b@, pos as int, enc_iface(x@)),
        forall|t: InterfaceV| #[trigger] iface_at(b@, pos as int, t) ==> (r matches Ok((x, _)) && x@ == t),
{
    proof {
        reveal(enc_iface);
        assert forall|t: InterfaceV| #[trigger] iface_at(b@, pos as int, t) implies is_at(
            b@,
            pos as int,
            enc_str(t.name),
        ) && is_at(b@, pos + enc_str(t.name).len(), enc_md(t.metadata)) by {
            lemma_at_split(b@, pos as int, enc_str(t.name), enc_md(t.metadata));
        }
    }
    let rn = read_str(b, pos);
    let (name, p1) = match rn {
        Ok(x) => x,
        Err(e) => {
            return Err(e);
        },
    };
    if validate_id(name.as_str()).is_err() {
        return Err(fail("invalid interface name", pos));
    }
    let rm = read_md(b, p1);
    let (md, p2) = match rm {
        Ok(x) => x,
        Err(e) => {
            proof {
                assert forall|t: InterfaceV| #[trigger] iface_at(b@, pos as int, t) implies false by {
                    assert(md_at(b@, p1 as int, t.metadata));
                }
            }
            return Err(e);
        },
    };
    let x = Interface { name, metadata: md };
    proof {
        lemma_at_split(b@, pos as int, enc_str(x@.name), enc_md(x@.metadata));
        assert forall|t: InterfaceV| #[trigger] iface_at(b@, pos as int, t) implies x@ == t by {
            assert(md_at(b@, p1 as int, t.metadata));
        }
    }
    Ok((x, p2))
}

/// A link with finite metadata is encoded at `pos`.
pub open spec fn link_at(b: Seq<u8>, pos: int, t: LinkV) -> bool {
    t.metadata.dom().finite() && is_at(b, pos, enc_link(t))
}

/// Read a link as written (normalization is checked by the caller).
fn read_link(b: &[u8], pos: usize) -> (r: Result<(Link, usize), CanonicalError>)
    requires
        pos <= b@.len(),
    ensures
        r matches Ok((x, p)) ==> x.metadata.wf() && x@.metadata.dom().finite() && p == pos + enc_link(
            x@,
        ).len() && is_at(b@, pos as int, enc_link(x@)),
        forall|t: LinkV| #[trigger] link_at(b@, pos as int, t) ==> (r matches Ok((x, _)) && x@ == t),
{
    proof {
        assert forall|t: LinkV| #[trigger] link_at(b@, pos as int, t) implies {
            let p1 = pos + enc_str(t.a.0).len();
            let p2 = p1 + enc_str(t.a.1).len();
            let p3 = p2 + enc_str(t.b.0).len();
            let p4 = p3 + enc_str(t.b.1).len();
            &&& is_at(b@, pos as int, enc_str(t.a.0))
            &&& is_at(b@, p1, enc_str(t.a.1))
            &&& is_at(b@, p2, enc_str(t.b.0))
            &&& is_at(b@, p3, enc_str(t.b.1))
            &&& is_at(b@, p4, enc_md(t.metadata))
        } by {
            let p1 = pos + enc_str(t.a.0).len();
            let p2 = p1 + enc_str(t.a.1).len();
            let p3 = p2 + enc_str(t.b.0).len();
            lemma_at_split(b@, pos as int, enc_ep(t.a) + enc_ep(t.b), enc_md(t.metadata));
            lemma_at_split(b@, pos as int, enc_ep(t.a), enc_ep(t.b));
            lemma_at_split(b@, pos as int, enc_str(t.a.0), enc_str(t.a.1));
            lemma_at_split(b@, p2, enc_str(t.b.0), enc_str(t.b.1));
        }
    }
    let r1 = read_str(b, pos);
    let (an, p1) = match r1 {
        Ok(x) => x,
        Err(e) => {
            return Err(e);
        },
    };
    let r2 = read_str(b, p1);
    let (ai, p2) = match r2 {
        Ok(x) => x,
        Err(e) => {
            return Err(e);
        },
    };
    let r3 = read_str(b, p2);
    let (bn, p3) = match r3 {
        Ok(x) => x,
        Err(e) => {
            return Err(e);
        },
    };
    let r4 = read_str(b, p3);
    let (bi, p4) = match r4 {
        Ok(x) => x,
        Err(e) => {
            return Err(e);
        },
    };
    let rm = read_md(b, p4);
    let (md, p5) = match rm {
        Ok(x) => x,
        Err(e) => {
            proof {
                assert forall|t: LinkV| #[trigger] link_at(b@, pos as int, t) implies false by {
                    assert(md_at(b@, p4 as int, t.metadata));
                }
            }
            return Err(e);
        },
    };
    let x = Link {
        a: Endpoint { node: an, iface: ai },
        b: Endpoint { node: bn, iface: bi },
        metadata: md,
    };
    proof {
        lemma_at_split(b@, pos as int, enc_ep(x@.a) + enc_ep(x@.b), enc_md(x@.metadata));
        lemma_at_split(b@, pos as int, enc_ep(x@.a), enc_ep(x@.b));
        lemma_at_split(b@, pos as int, enc_str(x@.a.0), enc_str(x@.a.1));
        lemma_at_split(b@, p2 as int, enc_str(x@.b.0), enc_str(x@.b.1));
        assert forall|t: LinkV| #[trigger] link_at(b@, pos as int, t) implies x@ == t by {
            assert(md_at(b@, p4 as int, t.metadata));
        }
    }
    Ok((x, p5))
}

/// A node that can be encoded: valid, with a valid id and finite metadata.
#[verifier::opaque]
pub open spec fn node_ok(v: NodeV) -> bool {
    &&& v.valid()
    &&& valid_id(v.id)
    &&& v.metadata.dom().finite()
    &&& forall|j: Seq<char>| #[trigger]
        v.interfaces.dom().contains(j) ==> v.interfaces[j].metadata.dom().finite()
}

/// An encodable node is encoded at `pos`.
pub open spec fn node_enc_at(b: Seq<u8>, pos: int, t: NodeV) -> bool {
    node_ok(t) && is_at(b, pos, enc_node(t))
}

/// The encodings of interfaces.
pub open spec fn iface_encs(xs: Seq<InterfaceV>) -> Seq<Seq<u8>> {
    Seq::new(xs.len(), |j: int| enc_iface(xs[j]))
}

proof fn lemma_node_shape(b: Seq<u8>, pos: int, t: NodeV)
    requires
        node_enc_at(b, pos, t),
    ensures
        ({
            let ts = sorted_strs(t.interfaces.dom());
            let p1 = pos + enc_str(t.id).len();
            let p2 = p1 + enc_md(t.metadata).len();
            &&& sorted_by(ts, str_order_fn())
            &&& enumerates(ts, t.interfaces.dom())
            &&& is_at(b, pos, enc_str(t.id))
            &&& md_at(b, p1, t.metadata)
            &&& is_at(b, p2, enc_u64(ts.len()))
            &&& is_at(b, p2 + 8, concat(iface_parts(t)))
            &&& ts.len() <= b.len()
            &&& iface_parts(t).len() == ts.len()
        }),
{
    reveal(node_ok);
    reveal(enc_node);
    let ts = sorted_strs(t.interfaces.dom());
    lemma_str_strict();
    lemma_sorted_enum_exists(t.interfaces.dom(), str_order_fn());
    lemma_u64_facts();
    let a = enc_str(t.id);
    let m = enc_md(t.metadata);
    let c = enc_u64(ts.len());
    let rest = concat(iface_parts(t));
    lemma_at_split(b, pos, a + m + c, rest);
    lemma_at_split(b, pos, a + m, c);
    lemma_at_split(b, pos, a, m);
    let parts = iface_parts(t);
    assert forall|j: int| 0 <= j < parts.len() implies (#[trigger] parts[j]).len() >= 1 by {
        reveal(enc_iface);
        assert(enc_u64(sbytes(t.interfaces[ts[j]].name).len()).len() == 8);
    }
    lemma_concat_len_at_least(parts, 1);
}

/// Progress of reading a node's interfaces against a node `t` whose
/// encoding stands at `pos`: the first `ks.len()` interfaces were read.
#[verifier::opaque]
spec fn iface_progress(
    b: Seq<u8>,
    p3: int,
    count: nat,
    ks: Seq<Seq<char>>,
    xs: Seq<InterfaceV>,
    t: NodeV,
) -> bool {
    &&& sorted_strs(t.interfaces.dom()).len() == count
    &&& is_at(b, p3, concat(iface_parts(t)))
    &&& sorted_strs(t.interfaces.dom()).take(ks.len() as int) == ks
    &&& xs.len() == ks.len()
    &&& forall|j: int| 0 <= j < ks.len() ==> t.interfaces[ks[j]] == #[trigger] xs[j]
}

proof fn lemma_iface_next(
    b: Seq<u8>,
    pos: int,
    p3: int,
    count: nat,
    ks: Seq<Seq<char>>,
    xs: Seq<InterfaceV>,
    t: NodeV,
)
    requires
        node_enc_at(b, pos, t),
        iface_progress(b, p3, count, ks, xs, t),
        ks.len() < count,
    ensures
        iface_at(
            b,
            p3 + concat(iface_encs(xs)).len(),
            t.interfaces[sorted_strs(t.interfaces.dom())[ks.len() as int]],
        ),
        ks.len() > 0 ==> str_lt(ks[ks.len() - 1], sorted_strs(t.interfaces.dom())[ks.len() as int]),
        t.interfaces[sorted_strs(t.interfaces.dom())[ks.len() as int]].name == sorted_strs(
            t.interfaces.dom(),
        )[ks.len() as int],
{
    reveal(iface_progress);
    reveal(node_ok);
    let i = ks.len() as int;
    lemma_node_shape(b, pos, t);
    let ts = sorted_strs(t.interfaces.dom());
    lemma_part_at(b, p3, iface_parts(t), i);
    assert(iface_parts(t).take(i) =~= iface_encs(xs)) by {
        assert forall|j: int| 0 <= j < i implies iface_parts(t).take(i)[j] == iface_encs(xs)[j] by {
            assert(ts.take(i)[j] == ks[j]);
        }
    }
    assert(ts.contains(ts[i]));
    assert(t.interfaces.dom().contains(ts[i]));
    if i > 0 {
        assert(ts.take(i)[i - 1] == ks[i - 1]);
    }
}

proof fn lemma_iface_advance(
    b: Seq<u8>,
    p3: int,
    count: nat,
    ks: Seq<Seq<char>>,
    xs: Seq<InterfaceV>,
    t: NodeV,
    xv: InterfaceV,
)
    requires
        iface_progress(b, p3, count, ks, xs, t),
        ks.len() < count,
        sorted_strs(t.interfaces.dom())[ks.len() as int] == xv.name,
        t.interfaces[xv.name] == xv,
    ensures
        iface_progress(b, p3, count, ks.push(xv.name), xs.push(xv), t),
{
    reveal(iface_progress);
    let i = ks.len() as int;
    let ks2 = ks.push(xv.name);
    let xs2 = xs.push(xv);
    assert(sorted_strs(t.interfaces.dom()).take(i + 1) =~= ks2);
    assert forall|j: int| 0 <= j < i + 1 implies t.interfaces[ks2[j]] == #[trigger] xs2[j] by {
        if j < i {
            assert(ks2[j] == ks[j] && xs2[j] == xs[j]);
        }
    }
}

proof fn lemma_iface_done(
    b: Seq<u8>,
    pos: int,
    p3: int,
    count: nat,
    ks: Seq<Seq<char>>,
    xs: Seq<InterfaceV>,
    t: NodeV,
)
    requires
        node_enc_at(b, pos, t),
        iface_progress(b, p3, count, ks, xs, t),
        ks.len() == count,
    ensures
        sorted_strs(t.interfaces.dom()) == ks,
        forall|j: int| 0 <= j < ks.len() ==> t.interfaces[ks[j]] == #[trigger] xs[j],
        forall|y: Seq<char>| #[trigger] t.interfaces.dom().contains(y) <==> ks.contains(y),
{
    reveal(iface_progress);
    lemma_node_shape(b, pos, t);
    let ts = sorted_strs(t.interfaces.dom());
    assert(ts.take(count as int) =~= ts);
}

proof fn lemma_iface_start(b: Seq<u8>, pos: int, p1: int, p2: int, p3: int, count: nat, t: NodeV)
    requires
        node_enc_at(b, pos, t),
        p1 == pos + enc_str(t.id).len(),
        p2 == p1 + enc_md(t.metadata).len(),
        p3 == p2 + 8,
        is_at(b, p2, enc_u64(count)),
        count <= u64::MAX,
        b.len() <= u64::MAX,
    ensures
        iface_progress(b, p3, count, Seq::empty(), Seq::empty(), t),
{
    reveal(iface_progress);
    lemma_node_shape(b, pos, t);
    lemma_u64_at(b, p2, count, sorted_strs(t.interfaces.dom()).len());
    assert(sorted_strs(t.interfaces.dom()).take(0) =~= Seq::<Seq<char>>::empty());
}

/// The interfaces read so far, `ks` by name and `xs` by value, are those of
/// `nv`, in strictly ascending name order.
#[verifier::opaque]
spec fn ifaces_read(nv: NodeV, ks: Seq<Seq<char>>, xs: Seq<InterfaceV>) -> bool {
    &&& xs.len() == ks.len()
    &&& sorted_by(ks, str_order_fn())
    &&& forall|j: int|
        0 <= j < ks.len() ==> nv.interfaces.dom().contains(#[trigger] ks[j]) && nv.interfaces[ks[j]]
            == xs[j] && xs[j].metadata.dom().finite()
    &&& forall|k: Seq<char>| #[trigger] nv.interfaces.dom().contains(k) ==> ks.contains(k)
}

proof fn lemma_ifaces_step(nv: NodeV, ks: Seq<Seq<char>>, xs: Seq<InterfaceV>, xv: InterfaceV)
    requires
        ifaces_read(nv, ks, xs),
        ks.len() > 0 ==> str_lt(ks[ks.len() - 1], xv.name),
        xv.metadata.dom().finite(),
    ensures
        !nv.interfaces.dom().contains(xv.name),
        ifaces_read(
            NodeV {
                id: nv.id,
                metadata: nv.metadata,
                interfaces: nv.interfaces.insert(xv.name, xv),
            },
            ks.push(xv.name),
            xs.push(xv),
        ),
{
    reveal(ifaces_read);
    let kv = xv.name;
    let i = ks.len() as int;
    assert forall|j: int| 0 <= j < i implies str_lt(#[trigger] ks[j], kv) by {
        if j < i - 1 {
            assert(str_lt(ks[j], ks[i - 1]));
        }
    }
    if nv.interfaces.dom().contains(kv) {
        let j = choose|j: int| 0 <= j < ks.len() && ks[j] == kv;
        assert(str_lt(ks[j], kv));
    }
    let nv2 = NodeV {
        id: nv.id,
        metadata: nv.metadata,
        interfaces: nv.interfaces.insert(xv.name, xv),
    };
    let ks2 = ks.push(kv);
    let xs2 = xs.push(xv);
    assert forall|j: int| 0 <= j < ks2.len() implies nv2.interfaces.dom().contains(#[trigger] ks2[j])
        && nv2.interfaces[ks2[j]] == xs2[j] && xs2[j].metadata.dom().finite() by {
        if j < i {
            assert(ks2[j] == ks[j] && xs2[j] == xs[j]);
            assert(str_lt(ks[j], kv));
        }
    }
    assert forall|y: Seq<char>| #[trigger] nv2.interfaces.dom().contains(y) implies ks2.contains(y) by {
        if y != kv {
            assert(ks.contains(y));
            let j = choose|j: int| 0 <= j < ks.len() && ks[j] == y;
            assert(ks2[j] == y);
        } else {
            assert(ks2[i] == kv);
        }
    }
    assert(sorted_by(ks2, str_order_fn())) by {
        assert forall|a: int, c: int| 0 <= a < c < ks2.len() implies (str_order_fn())(
            #[trigger] ks2[a],
            #[trigger] ks2[c],
        ) by {
            if c == i {
                assert(str_lt(ks[a], kv));
            } else {
                assert(ks2[a] == ks[a] && ks2[c] == ks[c]);
            }
        }
    }
}

proof fn lemma_ifaces_final(nv: NodeV, ks: Seq<Seq<char>>, xs: Seq<InterfaceV>)
    requires
        ifaces_read(nv, ks, xs),
    ensures
        sorted_strs(nv.interfaces.dom()) == ks,
        iface_parts(nv) == iface_encs(xs),
        forall|j: Seq<char>| #[trigger]
            nv.interfaces.dom().contains(j) ==> nv.interfaces[j].metadata.dom().finite(),
        forall|y: Seq<char>| #[trigger] nv.interfaces.dom().contains(y) <==> ks.contains(y),
        forall|j: int| 0 <= j < ks.len() ==> nv.interfaces[ks[j]] == #[trigger] xs[j],
{
    reveal(ifaces_read);
    lemma_str_strict();
    assert(enumerates(ks, nv.interfaces.dom())) by {
        assert forall|y: Seq<char>| #[trigger] nv.interfaces.dom().contains(y) <==> ks.contains(y) by {
            if ks.contains(y) {
                let j = choose|j: int| 0 <= j < ks.len() && ks[j] == y;
                assert(nv.interfaces.dom().contains(ks[j]));
            }
        }
    }
    lemma_sorted_enum(ks, nv.interfaces.dom(), str_order_fn());
    assert(iface_parts(nv) =~= iface_encs(xs)) by {
        assert forall|j: int| 0 <= j < ks.len() implies iface_parts(nv)[j] == iface_encs(xs)[j] by {
            assert(nv.interfaces.dom().contains(ks[j]));
        }
    }
    assert forall|j: Seq<char>| #[trigger] nv.interfaces.dom().contains(j) implies nv.interfaces[j].metadata.dom().finite() by {
        assert(ks.contains(j));
        let x = choose|x: int| 0 <= x < ks.len() && ks[x] == j;
        assert(nv.interfaces.dom().contains(ks[x]));
    }
}

/// Read a node with its interfaces.
fn read_node(b: &[u8], pos: usize) -> (r: Result<(Node, usize), CanonicalError>)
    requires
        pos <= b@.len(),
    ensures
        r matches Ok((n, p)) ==> n.wf() && node_ok(n@) && p == pos + enc_node(n@).len() && is_at(
            b@,
            pos as int,
            enc_node(n@),
        ),
        forall|t: NodeV| #[trigger] node_enc_at(b@, pos as int, t) ==> (r matches Ok((n, _)) && n@ == t),
{
    let ghost has = exists|t: NodeV| node_enc_at(b@, pos as int, t);
    let ghost tt = choose|t: NodeV| node_enc_at(b@, pos as int, t);
    let blen = b.len();
    proof {
        lemma_u64_facts();
        lemma_str_strict();
        if has {
            lemma_node_shape(b@, pos as int, tt);
        }
        assert forall|t: NodeV| #[trigger] node_enc_at(b@, pos as int, t) implies is_at(
            b@,
            pos as int,
            enc_str(t.id),
        ) && valid_id(t.id) by {
            lemma_node_shape(b@, pos as int, t);
            reveal(node_ok);
        }
    }
    let ri = read_str(b, pos);
    let (id, p1) = match ri {
        Ok(x) => x,
        Err(e) => {
            return Err(e);
        },
    };
    if validate_id(id.as_str()).is_err() {
        return Err(fail("invalid node id", pos));
    }
    proof {
        assert forall|t: NodeV| #[trigger] node_enc_at(b@, pos as int, t) implies md_at(
            b@,
            p1 as int,
            t.metadata,
        ) by {
            lemma_node_shape(b@, pos as int, t);
        }
    }
    let rm = read_md(b, p1);
    let (md, p2) = match rm {
        Ok(x) => x,
        Err(e) => {
            proof {
                if has {
                    assert(md_at(b@, p1 as int, tt.metadata));
                }
            }
            return Err(e);
        },
    };
    proof {
        assert forall|t: NodeV| #[trigger] node_enc_at(b@, pos as int, t) implies is_at(
            b@,
            p2 as int,
            enc_u64(sorted_strs(t.interfaces.dom()).len()),
        ) && t.metadata == md@ && t.id == id@ by {
            lemma_node_shape(b@, pos as int, t);
            assert(md_at(b@, p1 as int, t.metadata));
        }
    }
    let rc = read_u64(b, p2);
    let (count, p3) = match rc {
        Ok(x) => x,
        Err(e) => {
            return Err(e);
        },
    };
    proof {
        assert forall|t: NodeV| #[trigger] node_enc_at(b@, pos as int, t) implies iface_progress(
            b@,
            p3 as int,
            count as nat,
            Seq::empty(),
            Seq::empty(),
            t,
        ) by {
            lemma_iface_start(b@, pos as int, p1 as int, p2 as int, p3 as int, count as nat, t);
        }
    }
    let ghost idv = id@;
    let ghost mdv = md@;
    let mut node = Node::fresh(id, md);
    let mut cur = p3;
    let mut last: Option<String> = None;
    let ghost mut ks = Seq::<Seq<char>>::empty();
    let ghost mut xs = Seq::<InterfaceV>::empty();
    let mut i: u64 = 0;
    proof {
        assert(iface_encs(xs) =~= Seq::<Seq<u8>>::empty());
        assert(b@.subrange(p3 as int, p3 as int) =~= concat(iface_encs(xs)));
    }
    proof {
        reveal(ifaces_read);
    }
    while i < count
        invariant
            has == exists|t: NodeV| node_enc_at(b@, pos as int, t),
            has ==> node_enc_at(b@, pos as int, tt),
            p3 <= cur <= b@.len(),
            i <= count,
            ks.len() == i,
            node.wf(),
            node@.id == idv,
            node@.metadata == mdv,
            ifaces_read(node@, ks, xs),
            last matches Some(l) ==> (i > 0 && l@ == ks[i - 1]),
            i > 0 ==> last is Some,
            is_at(b@, p3 as int, concat(iface_encs(xs))),
            cur == p3 + concat(iface_encs(xs)).len(),
            forall|t: NodeV| #[trigger]
                node_enc_at(b@, pos as int, t) ==> iface_progress(b@, p3 as int, count as nat, ks, xs, t),
        decreases count - i,
    {
        let ghost ks0 = ks;
        let ghost xs0 = xs;
        let rx = read_iface(b, cur);
        let (x, p4) = match rx {
            Ok(v) => v,
            Err(e) => {
                proof {
                    if has {
                        lemma_iface_next(b@, pos as int, p3 as int, count as nat, ks, xs, tt);
                    }
                }
                return Err(e);
            },
        };
        let ghost xv = x@;
        proof {
            assert forall|t: NodeV| #[trigger] node_enc_at(b@, pos as int, t) implies sorted_strs(
                t.interfaces.dom(),
            )[i as int] == xv.name && t.interfaces[xv.name] == xv && (i > 0 ==> str_lt(
                ks[i - 1],
                xv.name,
            )) by {
                lemma_iface_next(b@, pos as int, p3 as int, count as nat, ks, xs, t);
            }
        }
        match &last {
            Some(l) => {
                if !str_less(l.as_str(), x.name.as_str()) {
                    proof {
                        if has {
                            assert(node_enc_at(b@, pos as int, tt));
                        }
                    }
                    return Err(fail("interface names are not in strictly ascending order", cur));
                }
            },
            None => {},
        }
        proof {
            lemma_ifaces_step(node@, ks, xs, xv);
        }
        let kc = x.name.clone();
        node.attach(x);
        proof {
            assert forall|t: NodeV| #[trigger] node_enc_at(b@, pos as int, t) implies iface_progress(
                b@,
                p3 as int,
                count as nat,
                ks0.push(xv.name),
                xs0.push(xv),
                t,
            ) by {
                lemma_iface_advance(b@, p3 as int, count as nat, ks0, xs0, t, xv);
            }
            ks = ks.push(xv.name);
            xs = xs.push(xv);
            assert(iface_encs(xs) =~= iface_encs(xs0).push(enc_iface(xv)));
            lemma_concat_push(iface_encs(xs0), enc_iface(xv));
            lemma_at_split(b@, p3 as int, concat(iface_encs(xs0)), enc_iface(xv));
        }
        last = Some(kc);
        cur = p4;
        i = i + 1;
    }
    proof {
        let nv = node@;
        node.lemma_valid();
        lemma_ifaces_final(nv, ks, xs);
        assert(node_ok(nv)) by {
            reveal(node_ok);
        }
        reveal(enc_node);
        let a = enc_str(nv.id);
        let m = enc_md(nv.metadata);
        let c = enc_u64(count as nat);
        lemma_at_split(b@, pos as int, a, m);
        lemma_at_split(b@, pos as int, a + m, c);
        lemma_at_split(b@, pos as int, a + m + c, concat(iface_encs(xs)));
        assert forall|t: NodeV| #[trigger] node_enc_at(b@, pos as int, t) implies nv == t by {
            lemma_iface_done(b@, pos as int, p3 as int, count as nat, ks, xs, t);
            assert forall|y: Seq<char>| #[trigger] t.interfaces.dom().contains(y) implies t.interfaces[y]
                == nv.interfaces[y] by {
                assert(ks.contains(y));
                let j = choose|j: int| 0 <= j < ks.len() && ks[j] == y;
                assert(t.interfaces[ks[j]] == xs[j]);
            }
            assert(t.interfaces =~= nv.interfaces);
        }
    }
    Ok((node, cur))
}

/// The encodings of nodes.
pub open spec fn node_encs(vs: Seq<NodeV>) -> Seq<Seq<u8>> {
    Seq::new(vs.len(), |j: int| enc_node(vs[j]))
}

/// The encodings of links.
pub open spec fn link_encs(ls: Seq<LinkV>) -> Seq<Seq<u8>> {
    Seq::new(ls.len(), |j: int| enc_link(ls[j]))
}

/// `b` begins with the canonical encoding of the encodable network `t`.
pub open spec fn net_at(b: Seq<u8>, t: NetworkV) -> bool {
    encodable(t) && is_at(b, 0, canon(t))
}

/// `b` is the canonical encoding of the encodable network `t`, and nothing
/// more.
pub open spec fn net_is(b: Seq<u8>, t: NetworkV) -> bool {
    net_at(b, t) && canon(t).len() == b.len()
}

proof fn lemma_net_shape(b: Seq<u8>, t: NetworkV)
    requires
        net_at(b, t),
    ensures
        ({
            let ts = sorted_strs(t.nodes.dom());
            let ks = sorted_keys(t.links.dom());
            let q = 10 + concat(node_parts(t)).len() as int;
            &&& sorted_by(ts, str_order_fn())
            &&& enumerates(ts, t.nodes.dom())
            &&& sorted_by(ks, key_order_fn())
            &&& enumerates(ks, t.links.dom())
            &&& is_at(b, 0, spec_u16_to_le_bytes(CANONICAL_FORMAT_VERSION))
            &&& is_at(b, 2, enc_u64(ts.len()))
            &&& is_at(b, 10, concat(node_parts(t)))
            &&& is_at(b, q, enc_u64(ks.len()))
            &&& is_at(b, q + 8, concat(link_parts(t)))
            &&& canon(t).len() == q + 8 + concat(link_parts(t)).len()
            &&& canon(t).len() <= b.len()
            &&& ts.len() <= b.len()
            &&& ks.len() <= b.len()
            &&& node_parts(t).len() == ts.len()
            &&& link_parts(t).len() == ks.len()
        }),
{
    reveal(canon);
    let ts = sorted_strs(t.nodes.dom());
    let ks = sorted_keys(t.links.dom());
    lemma_str_strict();
    lemma_key_strict();
    lemma_sorted_enum_exists(t.nodes.dom(), str_order_fn());
    lemma_sorted_enum_exists(t.links.dom(), key_order_fn());
    lemma_u64_facts();
    lemma_auto_spec_u16_to_from_le_bytes();
    let v = spec_u16_to_le_bytes(CANONICAL_FORMAT_VERSION);
    let a = enc_u64(ts.len());
    let np = concat(node_parts(t));
    let c = enc_u64(ks.len());
    let lp = concat(link_parts(t));
    assert(canon(t) == v + a + np + c + lp);
    lemma_at_split(b, 0, v + a + np + c, lp);
    lemma_at_split(b, 0, v + a + np, c);
    lemma_at_split(b, 0, v + a, np);
    lemma_at_split(b, 0, v, a);
    let parts = node_parts(t);
    assert forall|j: int| 0 <= j < parts.len() implies (#[trigger] parts[j]).len() >= 1 by {
        reveal(enc_node);
        assert(enc_u64(sbytes(t.nodes[ts[j]].id).len()).len() == 8);
    }
    lemma_concat_len_at_least(parts, 1);
    let lparts = link_parts(t);
    assert forall|j: int| 0 <= j < lparts.len() implies (#[trigger] lparts[j]).len() >= 1 by {
        assert(enc_u64(sbytes(t.links[ks[j]].a.0).len()).len() == 8);
    }
    lemma_concat_len_at_least(lparts, 1);
}

/// Progress of reading the nodes of `t`: the first `ks.len()` were read.
#[verifier::opaque]
spec fn node_progress(b: Seq<u8>, count: nat, ks: Seq<Seq<char>>, vs: Seq<NodeV>, t: NetworkV) -> bool {
    &&& sorted_strs(t.nodes.dom()).len() == count
    &&& sorted_strs(t.nodes.dom()).take(ks.len() as int) == ks
    &&& vs.len() == ks.len()
    &&& forall|j: int| 0 <= j < ks.len() ==> t.nodes[ks[j]] == #[trigger] vs[j]
}

proof fn lemma_node_next(b: Seq<u8>, count: nat, ks: Seq<Seq<char>>, vs: Seq<NodeV>, t: NetworkV)
    requires
        net_at(b, t),
        node_progress(b, count, ks, vs, t),
        ks.len() < count,
    ensures
        node_enc_at(b, 10 + concat(node_encs(vs)).len() as int, t.nodes[sorted_strs(t.nodes.dom())[ks.len() as int]]),
        t.nodes[sorted_strs(t.nodes.dom())[ks.len() as int]].id == sorted_strs(t.nodes.dom())[ks.len() as int],
        ks.len() > 0 ==> str_lt(ks[ks.len() - 1], sorted_strs(t.nodes.dom())[ks.len() as int]),
{
    reveal(node_progress);
    let i = ks.len() as int;
    lemma_net_shape(b, t);
    let ts = sorted_strs(t.nodes.dom());
    lemma_part_at(b, 10, node_parts(t), i);
    assert(node_parts(t).take(i) =~= node_encs(vs)) by {
        assert forall|j: int| 0 <= j < i implies node_parts(t).take(i)[j] == node_encs(vs)[j] by {
            assert(ts.take(i)[j] == ks[j]);
        }
    }
    assert(ts.contains(ts[i]));
    assert(t.nodes.dom().contains(ts[i]));
    assert(node_ok(t.nodes[ts[i]])) by {
        reveal(node_ok);
    }
    if i > 0 {
        assert(ts.take(i)[i - 1] == ks[i - 1]);
    }
}

proof fn lemma_node_advance(b: Seq<u8>, count: nat, ks: Seq<Seq<char>>, vs: Seq<NodeV>, t: NetworkV, v: NodeV)
    requires
        node_progress(b, count, ks, vs, t),
        ks.len() < count,
        sorted_strs(t.nodes.dom())[ks.len() as int] == v.id,
        t.nodes[v.id] == v,
    ensures
        node_progress(b, count, ks.push(v.id), vs.push(v), t),
{
    reveal(node_progress);
    let i = ks.len() as int;
    let ks2 = ks.push(v.id);
    let vs2 = vs.push(v);
    assert(sorted_strs(t.nodes.dom()).take(i + 1) =~= ks2);
    assert forall|j: int| 0 <= j < i + 1 implies t.nodes[ks2[j]] == #[trigger] vs2[j] by {
        if j < i {
            assert(ks2[j] == ks[j] && vs2[j] == vs[j]);
        }
    }
}

/// The nodes read so far, `ks` by id and `vs` by value, are those of `nv`,
/// in strictly ascending id order, and no link was read yet.
#[verifier::opaque]
spec fn nodes_read(nv: NetworkV, ks: Seq<Seq<char>>, vs: Seq<NodeV>) -> bool {
    &&& vs.len() == ks.len()
    &&& sorted_by(ks, str_order_fn())
    &&& forall|j: int|
        0 <= j < ks.len() ==> nv.nodes.dom().contains(#[trigger] ks[j]) && nv.nodes[ks[j]] == vs[j]
    &&& forall|k: Seq<char>| #[trigger] nv.nodes.dom().contains(k) ==> ks.contains(k)
}

proof fn lemma_nodes_step(nv: NetworkV, ks: Seq<Seq<char>>, vs: Seq<NodeV>, v: NodeV)
    requires
        nodes_read(nv, ks, vs),
        ks.len() > 0 ==> str_lt(ks[ks.len() - 1], v.id),
    ensures
        !nv.nodes.dom().contains(v.id),
        nodes_read(
            NetworkV { nodes: nv.nodes.insert(v.id, v), links: nv.links },
            ks.push(v.id),
            vs.push(v),
        ),
{
    reveal(nodes_read);
    let kv = v.id;
    let i = ks.len() as int;
    assert forall|j: int| 0 <= j < i implies str_lt(#[trigger] ks[j], kv) by {
        if j < i - 1 {
            assert(str_lt(ks[j], ks[i - 1]));
        }
    }
    if nv.nodes.dom().contains(kv) {
        let j = choose|j: int| 0 <= j < ks.len() && ks[j] == kv;
        assert(str_lt(ks[j], kv));
    }
    let nv2 = NetworkV { nodes: nv.nodes.insert(v.id, v), links: nv.links };
    let ks2 = ks.push(kv);
    let vs2 = vs.push(v);
    assert forall|j: int| 0 <= j < ks2.len() implies nv2.nodes.dom().contains(#[trigger] ks2[j])
        && nv2.nodes[ks2[j]] == vs2[j] by {
        if j < i {
            assert(ks2[j] == ks[j] && vs2[j] == vs[j]);
            assert(str_lt(ks[j], kv));
        }
    }
    assert forall|y: Seq<char>| #[trigger] nv2.nodes.dom().contains(y) implies ks2.contains(y) by {
        if y != kv {
            assert(ks.contains(y));
            let j = choose|j: int| 0 <= j < ks.len() && ks[j] == y;
            assert(ks2[j] == y);
        } else {
            assert(ks2[i] == kv);
        }
    }
    assert(sorted_by(ks2, str_order_fn())) by {
        assert forall|a: int, c: int| 0 <= a < c < ks2.len() implies (str_order_fn())(
            #[trigger] ks2[a],
            #[trigger] ks2[c],
        ) by {
            if c == i {
                assert(str_lt(ks[a], kv));
            } else {
                assert(ks2[a] == ks[a] && ks2[c] == ks[c]);
            }
        }
    }
}

proof fn lemma_nodes_final(nv: NetworkV, ks: Seq<Seq<char>>, vs: Seq<NodeV>)
    requires
        nodes_read(nv, ks, vs),
    ensures
        sorted_strs(nv.nodes.dom()) == ks,
        node_parts(nv) == node_encs(vs),
        forall|y: Seq<char>| #[trigger] nv.nodes.dom().contains(y) <==> ks.contains(y),
        forall|j: int| 0 <= j < ks.len() ==> nv.nodes[ks[j]] == #[trigger] vs[j],
{
    reveal(nodes_read);
    lemma_str_strict();
    assert(enumerates(ks, nv.nodes.dom())) by {
        assert forall|y: Seq<char>| #[trigger] nv.nodes.dom().contains(y) <==> ks.contains(y) by {
            if ks.contains(y) {
                let j = choose|j: int| 0 <= j < ks.len() && ks[j] == y;
                assert(nv.nodes.dom().contains(ks[j]));
            }
        }
    }
    lemma_sorted_enum(ks, nv.nodes.dom(), str_order_fn());
    assert(node_parts(nv) =~= node_encs(vs)) by {
        assert forall|j: int| 0 <= j < ks.len() implies node_parts(nv)[j] == node_encs(vs)[j] by {
            assert(nv.nodes.dom().contains(ks[j]));
        }
    }
}

proof fn lemma_nodes_done(b: Seq<u8>, count: nat, ks: Seq<Seq<char>>, vs: Seq<NodeV>, t: NetworkV)
    requires
        net_at(b, t),
        node_progress(b, count, ks, vs, t),
        ks.len() == count,
    ensures
        sorted_strs(t.nodes.dom()) == ks,
        forall|y: Seq<char>| #[trigger] t.nodes.dom().contains(y) <==> ks.contains(y),
        forall|j: int| 0 <= j < ks.len() ==> t.nodes[ks[j]] == #[trigger] vs[j],
        node_parts(t) == node_encs(vs),
{
    reveal(node_progress);
    lemma_net_shape(b, t);
    let ts = sorted_strs(t.nodes.dom());
    assert(ts.take(count as int) =~= ts);
    assert(node_parts(t) =~= node_encs(vs)) by {
        assert forall|j: int| 0 <= j < ks.len() implies node_parts(t)[j] == node_encs(vs)[j] by {
            assert(t.nodes[ks[j]] == vs[j]);
        }
    }
}

proof fn lemma_node_start(b: Seq<u8>, count: nat, t: NetworkV)
    requires
        net_at(b, t),
        is_at(b, 2, enc_u64(count)),
        count <= u64::MAX,
        b.len() <= u64::MAX,
    ensures
        node_progress(b, count, Seq::empty(), Seq::empty(), t),
{
    reveal(node_progress);
    lemma_net_shape(b, t);
    lemma_u64_at(b, 2, count, sorted_strs(t.nodes.dom()).len());
    assert(sorted_strs(t.nodes.dom()).take(0) =~= Seq::<Seq<char>>::empty());
}

/// Progress of reading the links of `t`, which start at `q8`.
#[verifier::opaque]
spec fn link_progress(
    b: Seq<u8>,
    q8: int,
    count: nat,
    ks: Seq<LinkKeyV>,
    ls: Seq<LinkV>,
    t: NetworkV,
) -> bool {
    &&& sorted_keys(t.links.dom()).len() == count
    &&& is_at(b, q8, concat(link_parts(t)))
    &&& q8 + concat(link_parts(t)).len() == canon(t).len()
    &&& sorted_keys(t.links.dom()).take(ks.len() as int) == ks
    &&& ls.len() == ks.len()
    &&& forall|j: int| 0 <= j < ks.len() ==> t.links[ks[j]] == #[trigger] ls[j]
}

proof fn lemma_link_next(
    b: Seq<u8>,
    q8: int,
    count: nat,
    ks: Seq<LinkKeyV>,
    ls: Seq<LinkV>,
    t: NetworkV,
)
    requires
        net_at(b, t),
        link_progress(b, q8, count, ks, ls, t),
        ks.len() < count,
    ensures
        ({
            let k = sorted_keys(t.links.dom())[ks.len() as int];
            &&& link_at(b, q8 + concat(link_encs(ls)).len(), t.links[k])
            &&& t.links[k].a == k.0
            &&& t.links[k].b == k.1
            &&& ep_lt(k.0, k.1)
            &&& k.0.0 != k.1.0
            &&& t.has_endpoint(k.0)
            &&& t.has_endpoint(k.1)
            &&& (ks.len() > 0 ==> lk_lt(ks[ks.len() - 1], k))
        }),
{
    reveal(link_progress);
    let i = ks.len() as int;
    lemma_net_shape(b, t);
    let ts = sorted_keys(t.links.dom());
    lemma_part_at(b, q8, link_parts(t), i);
    assert(link_parts(t).take(i) =~= link_encs(ls)) by {
        assert forall|j: int| 0 <= j < i implies link_parts(t).take(i)[j] == link_encs(ls)[j] by {
            assert(ts.take(i)[j] == ks[j]);
        }
    }
    assert(ts.contains(ts[i]));
    assert(t.links.dom().contains(ts[i]));
    if i > 0 {
        assert(ts.take(i)[i - 1] == ks[i - 1]);
        assert((key_order_fn())(ts[i - 1], ts[i]));
    }
}

proof fn lemma_link_advance(
    b: Seq<u8>,
    q8: int,
    count: nat,
    ks: Seq<LinkKeyV>,
    ls: Seq<LinkV>,
    t: NetworkV,
    l: LinkV,
)
    requires
        link_progress(b, q8, count, ks, ls, t),
        ks.len() < count,
        sorted_keys(t.links.dom())[ks.len() as int] == (l.a, l.b),
        t.links[(l.a, l.b)] == l,
    ensures
        link_progress(b, q8, count, ks.push((l.a, l.b)), ls.push(l), t),
{
    reveal(link_progress);
    let i = ks.len() as int;
    let ks2 = ks.push((l.a, l.b));
    let ls2 = ls.push(l);
    assert(sorted_keys(t.links.dom()).take(i + 1) =~= ks2);
    assert forall|j: int| 0 <= j < i + 1 implies t.links[ks2[j]] == #[trigger] ls2[j] by {
        if j < i {
            assert(ks2[j] == ks[j] && ls2[j] == ls[j]);
        }
    }
}

proof fn lemma_links_done(b: Seq<u8>, q8: int, count: nat, ks: Seq<LinkKeyV>, ls: Seq<LinkV>, t: NetworkV)
    requires
        net_at(b, t),
        link_progress(b, q8, count, ks, ls, t),
        ks.len() == count,
    ensures
        sorted_keys(t.links.dom()) == ks,
        forall|y: LinkKeyV| #[trigger] t.links.dom().contains(y) <==> ks.contains(y),
        forall|j: int| 0 <= j < ks.len() ==> t.links[ks[j]] == #[trigger] ls[j],
        link_parts(t) == link_encs(ls),
        q8 + concat(link_encs(ls)).len() == canon(t).len(),
{
    reveal(link_progress);
    lemma_net_shape(b, t);
    let ts = sorted_keys(t.links.dom());
    assert(ts.take(count as int) =~= ts);
    assert(link_parts(t) =~= link_encs(ls)) by {
        assert forall|j: int| 0 <= j < ks.len() implies link_parts(t)[j] == link_encs(ls)[j] by {
            assert(t.links[ks[j]] == ls[j]);
        }
    }
}

/// The links read so far, `ks` by key and `ls` by value, are those of `nv`,
/// in strictly ascending key order.
#[verifier::opaque]
spec fn links_read(nv: NetworkV, ks: Seq<LinkKeyV>, ls: Seq<LinkV>) -> bool {
    &&& ls.len() == ks.len()
    &&& sorted_by(ks, key_order_fn())
    &&& forall|j: int|
        0 <= j < ks.len() ==> nv.links.dom().contains(#[trigger] ks[j]) && nv.links[ks[j]] == ls[j]
    &&& forall|k: LinkKeyV| #[trigger] nv.links.dom().contains(k) ==> ks.contains(k)
}

proof fn lemma_links_step(nv: NetworkV, ks: Seq<LinkKeyV>, ls: Seq<LinkV>, l: LinkV)
    requires
        links_read(nv, ks, ls),
        ks.len() > 0 ==> lk_lt(ks[ks.len() - 1], (l.a, l.b)),
    ensures
        !nv.links.dom().contains((l.a, l.b)),
        links_read(
            NetworkV { nodes: nv.nodes, links: nv.links.insert((l.a, l.b), l) },
            ks.push((l.a, l.b)),
            ls.push(l),
        ),
{
    reveal(links_read);
    let kv = (l.a, l.b);
    let i = ks.len() as int;
    assert forall|j: int| 0 <= j < i implies lk_lt(#[trigger] ks[j], kv) by {
        if j < i - 1 {
            assert((key_order_fn())(ks[j], ks[i - 1]));
        }
    }
    if nv.links.dom().contains(kv) {
        let j = choose|j: int| 0 <= j < ks.len() && ks[j] == kv;
        assert(lk_lt(ks[j], kv));
    }
    let nv2 = NetworkV { nodes: nv.nodes, links: nv.links.insert(kv, l) };
    let ks2 = ks.push(kv);
    let ls2 = ls.push(l);
    assert forall|j: int| 0 <= j < ks2.len() implies nv2.links.dom().contains(#[trigger] ks2[j])
        && nv2.links[ks2[j]] == ls2[j] by {
        if j < i {
            assert(ks2[j] == ks[j] && ls2[j] == ls[j]);
            assert(lk_lt(ks[j], kv));
        }
    }
    assert forall|y: LinkKeyV| #[trigger] nv2.links.dom().contains(y) implies ks2.contains(y) by {
        if y != kv {
            assert(ks.contains(y));
            let j = choose|j: int| 0 <= j < ks.len() && ks[j] == y;
            assert(ks2[j] == y);
        } else {
            assert(ks2[i] == kv);
        }
    }
    assert(sorted_by(ks2, key_order_fn())) by {
        assert forall|a: int, c: int| 0 <= a < c < ks2.len() implies (key_order_fn())(
            #[trigger] ks2[a],
            #[trigger] ks2[c],
        ) by {
            if c == i {
                assert(lk_lt(ks[a], kv));
            } else {
                assert(ks2[a] == ks[a] && ks2[c] == ks[c]);
            }
        }
    }
}

proof fn lemma_links_final(nv: NetworkV, ks: Seq<LinkKeyV>, ls: Seq<LinkV>)
    requires
        links_read(nv, ks, ls),
    ensures
        sorted_keys(nv.links.dom()) == ks,
        link_parts(nv) == link_encs(ls),
        forall|y: LinkKeyV| #[trigger] nv.links.dom().contains(y) <==> ks.contains(y),
        forall|j: int| 0 <= j < ks.len() ==> nv.links[ks[j]] == #[trigger] ls[j],
{
    reveal(links_read);
    lemma_key_strict();
    assert(enumerates(ks, nv.links.dom())) by {
        assert forall|y: LinkKeyV| #[trigger] nv.links.dom().contains(y) <==> ks.contains(y) by {
            if ks.contains(y) {
                let j = choose|j: int| 0 <= j < ks.len() && ks[j] == y;
                assert(nv.links.dom().contains(ks[j]));
            }
        }
    }
    lemma_sorted_enum(ks, nv.links.dom(), key_order_fn());
    assert(link_parts(nv) =~= link_encs(ls)) by {
        assert forall|j: int| 0 <= j < ks.len() implies link_parts(nv)[j] == link_encs(ls)[j] by {
            assert(nv.links.dom().contains(ks[j]));
        }
    }
}

/// Read the nodes of a canonical encoding, which start at offset 10.
fn read_nodes(bytes: &[u8], ncount: u64) -> (r: Result<(Network, usize), CanonicalError>)
    requires
        10 <= bytes@.len(),
        forall|t: NetworkV| #[trigger]
            net_at(bytes@, t) ==> node_progress(bytes@, ncount as nat, Seq::empty(), Seq::empty(), t),
    ensures
        r matches Ok((net, p)) ==> {
            &&& net.wf()
            &&& net@.links == Map::<LinkKeyV, LinkV>::empty()
            &&& sorted_strs(net@.nodes.dom()).len() == ncount
            &&& is_at(bytes@, 10, concat(node_parts(net@)))
            &&& p == 10 + concat(node_parts(net@)).len()
            &&& forall|t: NetworkV| #[trigger]
                net_at(bytes@, t) ==> t.nodes == net@.nodes && node_parts(t) == node_parts(net@)
        },
        forall|t: NetworkV| #[trigger] net_at(bytes@, t) ==> r is Ok,
{
    let ghost has = exists|t: NetworkV| net_at(bytes@, t);
    let ghost tt = choose|t: NetworkV| net_at(bytes@, t);
    proof {
        lemma_str_strict();
    }
    let mut net = Network::empty();
    let mut cur: usize = 10;
    let mut last: Option<String> = None;
    let ghost mut ks = Seq::<Seq<char>>::empty();
    let ghost mut vs = Seq::<NodeV>::empty();
    let mut i: u64 = 0;
    proof {
        reveal(nodes_read);
        assert(node_encs(vs) =~= Seq::<Seq<u8>>::empty());
        assert(bytes@.subrange(10, 10) =~= concat(node_encs(vs)));
    }
    while i < ncount
        invariant
            has == exists|t: NetworkV| net_at(bytes@, t),
            has ==> net_at(bytes@, tt),
            10 <= cur <= bytes@.len(),
            i <= ncount,
            ks.len() == i,
            vs.len() == i,
            net.wf(),
            net@.links == Map::<LinkKeyV, LinkV>::empty(),
            nodes_read(net@, ks, vs),
            last matches Some(l) ==> (i > 0 && l@ == ks[i - 1]),
            i > 0 ==> last is Some,
            is_at(bytes@, 10, concat(node_encs(vs))),
            cur == 10 + concat(node_encs(vs)).len(),
            forall|t: NetworkV| #[trigger]
                net_at(bytes@, t) ==> node_progress(bytes@, ncount as nat, ks, vs, t),
        decreases ncount - i,
    {
        let ghost ks0 = ks;
        let ghost vs0 = vs;
        let rn = read_node(bytes, cur);
        let (node, p1) = match rn {
            Ok(x) => x,
            Err(e) => {
                proof {
                    if has {
                        lemma_node_next(bytes@, ncount as nat, ks, vs, tt);
                    }
                }
                return Err(e);
            },
        };
        let ghost nv = node@;
        proof {
            assert forall|t: NetworkV| #[trigger] net_at(bytes@, t) implies sorted_strs(t.nodes.dom())[i as int]
                == nv.id && t.nodes[nv.id] == nv && (i > 0 ==> str_lt(ks[i - 1], nv.id)) by {
                lemma_node_next(bytes@, ncount as nat, ks, vs, t);
            }
        }
        match &last {
            Some(l) => {
                if !str_less(l.as_str(), node.id_ref().as_str()) {
                    proof {
                        if has {
                            assert(net_at(bytes@, tt));
                        }
                    }
                    return Err(fail("node ids are not in strictly ascending order", cur));
                }
            },
            None => {},
        }
        proof {
            lemma_nodes_step(net@, ks, vs, nv);
            reveal(node_ok);
        }
        let kc = node.id_ref().clone();
        net.put_node(node);
        proof {
            assert forall|t: NetworkV| #[trigger] net_at(bytes@, t) implies node_progress(
                bytes@,
                ncount as nat,
                ks0.push(nv.id),
                vs0.push(nv),
                t,
            ) by {
                lemma_node_advance(bytes@, ncount as nat, ks0, vs0, t, nv);
            }
            ks = ks.push(nv.id);
            vs = vs.push(nv);
            assert(node_encs(vs) =~= node_encs(vs0).push(enc_node(nv)));
            lemma_concat_push(node_encs(vs0), enc_node(nv));
            lemma_at_split(bytes@, 10, concat(node_encs(vs0)), enc_node(nv));
        }
        last = Some(kc);
        cur = p1;
        i = i + 1;
    }
    proof {
        lemma_nodes_final(net@, ks, vs);
        assert forall|t: NetworkV| #[trigger] net_at(bytes@, t) implies t.nodes == net@.nodes
            && node_parts(t) == node_parts(net@) by {
            lemma_nodes_done(bytes@, ncount as nat, ks, vs, t);
            assert forall|y: Seq<char>| #[trigger] t.nodes.dom().contains(y) implies t.nodes[y]
                == net@.nodes[y] by {
                assert(ks.contains(y));
                let j = choose|j: int| 0 <= j < ks.len() && ks[j] == y;
                assert(t.nodes[ks[j]] == vs[j]);
            }
            assert(t.nodes =~= net@.nodes);
        }
    }
    Ok((net, cur))
}

/// Read the links of a canonical encoding into a network holding its
/// nodes; the links start at `q8`.
fn read_links(bytes: &[u8], net: Network, q8: usize, lcount: u64) -> (r: Result<(Network, usize), CanonicalError>)
    requires
        q8 <= bytes@.len(),
        net.wf(),
        net@.links == Map::<LinkKeyV, LinkV>::empty(),
        forall|t: NetworkV| #[trigger]
            net_at(bytes@, t) ==> link_progress(
                bytes@,
                q8 as int,
                lcount as nat,
                Seq::empty(),
                Seq::empty(),
                t,
            ) && t.nodes == net@.nodes,
    ensures
        r matches Ok((n2, p)) ==> {
            &&& n2.wf()
            &&& n2@.nodes == net@.nodes
            &&& sorted_keys(n2@.links.dom()).len() == lcount
            &&& is_at(bytes@, q8 as int, concat(link_parts(n2@)))
            &&& p == q8 + concat(link_parts(n2@)).len()
            &&& forall|t: NetworkV| #[trigger] net_at(bytes@, t) ==> t.links == n2@.links && p == canon(t).len()
        },
        forall|t: NetworkV| #[trigger] net_at(bytes@, t) ==> r is Ok,
{
    let ghost has = exists|t: NetworkV| net_at(bytes@, t);
    let ghost tt = choose|t: NetworkV| net_at(bytes@, t);
    let ghost nodes_map = net@.nodes;
    proof {
        lemma_key_strict();
    }
    let mut net = net;
    let mut cur = q8;
    let mut lastk: Option<(Endpoint, Endpoint)> = None;
    let ghost mut lks = Seq::<LinkKeyV>::empty();
    let ghost mut ls = Seq::<LinkV>::empty();
    let mut j: u64 = 0;
    proof {
        reveal(links_read);
        assert(link_encs(ls) =~= Seq::<Seq<u8>>::empty());
        assert(bytes@.subrange(q8 as int, q8 as int) =~= concat(link_encs(ls)));
    }
    while j < lcount
        invariant
            has == exists|t: NetworkV| net_at(bytes@, t),
            has ==> net_at(bytes@, tt),
            q8 <= cur <= bytes@.len(),
            j <= lcount,
            lks.len() == j,
            ls.len() == j,
            net.wf(),
            net@.nodes == nodes_map,
            links_read(net@, lks, ls),
            lastk matches Some(l) ==> (j > 0 && l@ == lks[j - 1]),
            j > 0 ==> lastk is Some,
            is_at(bytes@, q8 as int, concat(link_encs(ls))),
            cur == q8 + concat(link_encs(ls)).len(),
            forall|t: NetworkV| #[trigger]
                net_at(bytes@, t) ==> link_progress(bytes@, q8 as int, lcount as nat, lks, ls, t)
                    && t.nodes == nodes_map,
        decreases lcount - j,
    {
        let ghost lks0 = lks;
        let ghost ls0 = ls;
        let rx = read_link(bytes, cur);
        let (x, p3) = match rx {
            Ok(v) => v,
            Err(e) => {
                proof {
                    if has {
                        lemma_link_next(bytes@, q8 as int, lcount as nat, lks, ls, tt);
                    }
                }
                return Err(e);
            },
        };
        let ghost lv = x@;
        proof {
            assert forall|t: NetworkV| #[trigger] net_at(bytes@, t) implies sorted_keys(t.links.dom())[j as int]
                == (lv.a, lv.b) && t.links[(lv.a, lv.b)] == lv && ep_lt(lv.a, lv.b) && lv.a.0 != lv.b.0 && t.has_endpoint(lv.a)
                && t.has_endpoint(lv.b) && (j > 0 ==> lk_lt(lks[j - 1], (lv.a, lv.b))) by {
                lemma_link_next(bytes@, q8 as int, lcount as nat, lks, ls, t);
            }
        }
        if !ep_less(&x.a, &x.b) {
            proof {
                if has {
                    assert(net_at(bytes@, tt));
                }
            }
            return Err(fail("link endpoints are not normalized (a < b required)", cur));
        }
        let key = x.key();
        match &lastk {
            Some(l) => {
                match l.key_compare(&key) {
                    Compared::Less => {},
                    _ => {
                        proof {
                            if has {
                                assert(net_at(bytes@, tt));
                            }
                        }
                        return Err(fail("links are not in strictly ascending order", cur));
                    },
                }
            },
            None => {},
        }
        proof {
            lemma_links_step(net@, lks, ls, lv);
        }
        match net.add_existing_link(x) {
            Ok(()) => {},
            Err(_) => {
                proof {
                    if has {
                        assert(net_at(bytes@, tt));
                        assert(lv.a.0 != lv.b.0);
                    }
                }
                return Err(fail("dangling link endpoint", cur));
            },
        }
        proof {
            assert forall|t: NetworkV| #[trigger] net_at(bytes@, t) implies link_progress(
                bytes@,
                q8 as int,
                lcount as nat,
                lks0.push((lv.a, lv.b)),
                ls0.push(lv),
                t,
            ) && t.nodes == nodes_map by {
                lemma_link_advance(bytes@, q8 as int, lcount as nat, lks0, ls0, t, lv);
            }
            lks = lks.push((lv.a, lv.b));
            ls = ls.push(lv);
            assert(link_encs(ls) =~= link_encs(ls0).push(enc_link(lv)));
            lemma_concat_push(link_encs(ls0), enc_link(lv));
            lemma_at_split(bytes@, q8 as int, concat(link_encs(ls0)), enc_link(lv));
        }
        lastk = Some(key);
        cur = p3;
        j = j + 1;
    }
    proof {
        lemma_links_final(net@, lks, ls);
        assert forall|t: NetworkV| #[trigger] net_at(bytes@, t) implies t.links == net@.links && cur
            == canon(t).len() by {
            lemma_links_done(bytes@, q8 as int, lcount as nat, lks, ls, t);
            assert forall|y: LinkKeyV| #[trigger] t.links.dom().contains(y) implies t.links[y] == net@.links[y] by {
                assert(lks.contains(y));
                let x = choose|x: int| 0 <= x < lks.len() && lks[x] == y;
                assert(t.links[lks[x]] == ls[x]);
            }
            assert(t.links =~= net@.links);
        }
    }
    Ok((net, cur))
}

/// Strictly parse canonical state bytes.
///
/// The bytes are accepted exactly when they are the canonical encoding of an
/// encodable network, and the state returned holds that network: parsing an
/// encoding gives back the value encoded, and re-encoding a parsed value
/// gives back the bytes.
pub fn parse_canonical(bytes: &[u8]) -> (r: Result<State, CanonicalError>)
    ensures
        r matches Ok(s) ==> s.network.wf() && net_is(bytes@, s.network@),
        forall|n: NetworkV| #[trigger] net_is(bytes@, n) ==> (r matches Ok(s) && s.network@ == n),
        r is Err <==> !exists|n: NetworkV| net_is(bytes@, n),
        forall|n: NetworkV| #[trigger] net_at(bytes@, n) && canon(n).len() < bytes@.len() ==> (r matches Err(e)
            && e.offset == canon(n).len() && e.message@ == "trailing bytes after canonical state"@),
{
    let ghost has = exists|t: NetworkV| net_at(bytes@, t);
    let ghost tt = choose|t: NetworkV| net_at(bytes@, t);
    let blen = bytes.len();
    proof {
        lemma_u64_facts();
        lemma_auto_spec_u16_to_from_le_bytes();
        if has {
            lemma_net_shape(bytes@, tt);
        }
    }
    if blen < 2 {
        return Err(fail("unexpected end of input", 0));
    }
    let vb = slice_subrange(bytes, 0, 2);
    let version = u16_from_le_bytes(vb);
    if version != CANONICAL_FORMAT_VERSION {
        proof {
            if has {
                assert(vb@ == spec_u16_to_le_bytes(CANONICAL_FORMAT_VERSION));
            }
        }
        return Err(fail("unsupported canonical format version", 0));
    }
    let rc = read_u64(bytes, 2);
    let (ncount, p0) = match rc {
        Ok(x) => x,
        Err(e) => {
            return Err(e);
        },
    };
    proof {
        assert forall|t: NetworkV| #[trigger] net_at(bytes@, t) implies node_progress(
            bytes@,
            ncount as nat,
            Seq::empty(),
            Seq::empty(),
            t,
        ) by {
            lemma_node_start(bytes@, ncount as nat, t);
        }
    }
    let rn = read_nodes(bytes, ncount);
    let (net, p1) = match rn {
        Ok(x) => x,
        Err(e) => {
            return Err(e);
        },
    };
    let rl = read_u64(bytes, p1);
    let (lcount, p2) = match rl {
        Ok(x) => x,
        Err(e) => {
            proof {
                if has {
                    assert(net_at(bytes@, tt));
                    lemma_net_shape(bytes@, tt);
                }
            }
            return Err(e);
        },
    };
    proof {
        assert forall|t: NetworkV| #[trigger] net_at(bytes@, t) implies link_progress(
            bytes@,
            p2 as int,
            lcount as nat,
            Seq::empty(),
            Seq::empty(),
            t,
        ) && t.nodes == net@.nodes by {
            reveal(link_progress);
            lemma_net_shape(bytes@, t);
            lemma_u64_at(bytes@, p1 as int, lcount as nat, sorted_keys(t.links.dom()).len());
            assert(sorted_keys(t.links.dom()).take(0) =~= Seq::<LinkKeyV>::empty());
        }
    }
    let ghost net1 = net@;
    let rls = read_links(bytes, net, p2, lcount);
    let (net, p3) = match rls {
        Ok(x) => x,
        Err(e) => {
            return Err(e);
        },
    };
    if p3 != blen {
        return Err(fail("trailing bytes after canonical state", p3));
    }
    proof {
        let nv = net@;
        lemma_encodable(&net);
        reveal(canon);
        let v = spec_u16_to_le_bytes(CANONICAL_FORMAT_VERSION);
        let a = enc_u64(ncount as nat);
        let np = concat(node_parts(nv));
        let c = enc_u64(lcount as nat);
        let lp = concat(link_parts(nv));
        assert(node_parts(nv) == node_parts(net1)) by {
            assert(nv.nodes == net1.nodes);
            assert(node_parts(nv) =~= node_parts(net1));
        }
        assert(is_at(bytes@, 0, v)) by {
            assert(bytes@.subrange(0, 2) == vb@);
        }
        lemma_at_split(bytes@, 0, v, a);
        lemma_at_split(bytes@, 0, v + a, np);
        lemma_at_split(bytes@, 0, v + a + np, c);
        lemma_at_split(bytes@, 0, v + a + np + c, lp);
        assert(canon(nv) == v + a + np + c + lp);
        assert(bytes@.subrange(0, bytes@.len() as int) =~= bytes@);
        assert(canon(nv) == bytes@);
        assert forall|t: NetworkV| #[trigger] net_is(bytes@, t) implies nv == t by {
            assert(net_at(bytes@, t));
            assert(t.nodes == nv.nodes);
            assert(t.links == nv.links);
        }
        assert(is_at(bytes@, 0, canon(nv)));
        assert(net_is(bytes@, nv));
    }
    Ok(State { network: net })
}

} // verus!
