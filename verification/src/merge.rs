//! Fail-closed three-way semantic merge.
//!
//! Each side's changes against the common ancestor are computed as
//! object-level effects (nodes, interfaces, links). When both sides touch
//! the same object, the merge succeeds only if their effects are identical;
//! otherwise it is a conflict. Disjoint changes are applied
//! deterministically: ours, then theirs, each as operations in
//! dependency-safe order. The merged candidate is returned unverified.
//!
//! False rejections are acceptable; false accepts are not.
use vstd::prelude::*;
use crate::text::{owned, group_str_order};
use crate::model::{
    Network, NetworkV, EndpointV, LinkKeyV, Endpoint, Metadata, ModelError, InterfaceV, NodeV,
    valid_id, norm_key, bare_link, with_interface, without_interface, push_str, pair_views, ep_text, ep_lt,
};
use crate::transition::{Operation, TransitionError, apply, op_result};
use crate::diff::{
    iface_set, sorted_eps, str_views, key_views, missing_nodes, missing_interfaces, missing_links,
    has_interface, ep_order_fn, diff, lemma_ep_strict, lemma_sorted_enum_exists_for_ifaces,
};
use crate::seqs::{lemma_take_filter, lemma_filter_sorted_enum, sorted_by, enumerates, lemma_sorted_enum_exists};
use crate::canonical::{sorted_strs, sorted_keys, md_entries, lemma_md_entries};
use crate::describe::{debug_str, debug_str_spec, debug_map, metadata_debug};

verus! {

broadcast use group_str_order;

/// An explainable merge rejection.
#[derive(Debug, Clone, PartialEq, Eq)]
pub struct MergeConflict {
    pub conflicts: Vec<String>,
}

/// An operation, by the views of its arguments.
pub enum OpV {
    AddNode(Seq<char>, Map<Seq<char>, Seq<char>>),
    RemoveNode(Seq<char>),
    AddIface(EndpointV),
    RemoveIface(EndpointV),
    AddLink(LinkKeyV),
    RemoveLink(LinkKeyV),
}

/// The view of an operation.
pub open spec fn op_view(op: Operation) -> OpV {
    match op {
        Operation::AddNode { id, metadata } => OpV::AddNode(id@, metadata@),
        Operation::RemoveNode { id } => OpV::RemoveNode(id@),
        Operation::AddInterface { node, name } => OpV::AddIface((node@, name@)),
        Operation::RemoveInterface { node, name } => OpV::RemoveIface((node@, name@)),
        Operation::AddLink { a, b } => OpV::AddLink((a@, b@)),
        Operation::RemoveLink { a, b } => OpV::RemoveLink((a@, b@)),
    }
}

/// What an operation produces, by views; `None` when it is rejected.
pub open spec fn opv_result(n: NetworkV, v: OpV) -> Option<NetworkV> {
    match v {
        OpV::AddNode(id, md) => if valid_id(id) && !n.nodes.dom().contains(id) {
            Some(
                NetworkV {
                    nodes: n.nodes.insert(
                        id,
                        NodeV { id, metadata: md, interfaces: Map::<Seq<char>, InterfaceV>::empty() },
                    ),
                    links: n.links,
                },
            )
        } else {
            None
        },
        OpV::RemoveNode(id) => if n.nodes.dom().contains(id) && !n.node_linked(id) {
            Some(NetworkV { nodes: n.nodes.remove(id), links: n.links })
        } else {
            None
        },
        OpV::AddIface(e) => if valid_id(e.1) && n.nodes.dom().contains(e.0)
            && !n.nodes[e.0].interfaces.dom().contains(e.1) {
            Some(with_interface(n, e.0, e.1))
        } else {
            None
        },
        OpV::RemoveIface(e) => if n.nodes.dom().contains(e.0) && !n.iface_linked(e)
            && n.nodes[e.0].interfaces.dom().contains(e.1) {
            Some(without_interface(n, e.0, e.1))
        } else {
            None
        },
        OpV::AddLink(k) => if n.has_endpoint(k.0) && n.has_endpoint(k.1) && k.0.0 != k.1.0
            && !n.links.dom().contains(norm_key(k.0, k.1)) {
            Some(
                NetworkV {
                    nodes: n.nodes,
                    links: n.links.insert(norm_key(k.0, k.1), bare_link(norm_key(k.0, k.1))),
                },
            )
        } else {
            None
        },
        OpV::RemoveLink(k) => if n.has_endpoint(k.0) && n.has_endpoint(k.1) && n.links.dom().contains(
            norm_key(k.0, k.1),
        ) {
            Some(NetworkV { nodes: n.nodes, links: n.links.remove(norm_key(k.0, k.1)) })
        } else {
            None
        },
    }
}

/// An operation's result depends only on its view.
proof fn lemma_op_view(n: NetworkV, op: Operation)
    ensures
        op_result(n, op) == opv_result(n, op_view(op)),
{
}

/// The operation's effect is already in place.
pub open spec fn already(n: NetworkV, v: OpV) -> bool {
    match v {
        OpV::AddNode(id, md) => n.nodes.dom().contains(id) && n.nodes[id].metadata == md,
        OpV::RemoveNode(id) => !n.nodes.dom().contains(id),
        OpV::AddIface(e) => n.has_endpoint(e) && n.nodes[e.0].interfaces[e.1].metadata.dom().len()
            == 0,
        OpV::RemoveIface(e) => !n.has_endpoint(e),
        OpV::AddLink(k) => n.links.dom().contains(norm_key(k.0, k.1)),
        OpV::RemoveLink(k) => !n.links.dom().contains(norm_key(k.0, k.1)),
    }
}

/// One operation applied tolerantly: a rejected operation whose effect is
/// already in place leaves the network as it is.
pub open spec fn tol_step(n: Option<NetworkV>, v: OpV) -> Option<NetworkV> {
    match n {
        None => None,
        Some(x) => match opv_result(x, v) {
            Some(m) => Some(m),
            None => if already(x, v) {
                Some(x)
            } else {
                None
            },
        },
    }
}

/// Operations applied tolerantly in order; `None` at the first one that is
/// rejected and not already in effect.
pub open spec fn tol_ops(n: Option<NetworkV>, vs: Seq<OpV>) -> Option<NetworkV>
    decreases vs.len(),
{
    if vs.len() == 0 {
        n
    } else {
        tol_step(tol_ops(n, vs.drop_last()), vs.last())
    }
}

/// Interfaces the side removed from nodes it kept.
pub open spec fn removed_ifaces(b: NetworkV, s: NetworkV) -> Set<EndpointV> {
    iface_set(b).difference(iface_set(s)).filter(|e: EndpointV| s.nodes.dom().contains(e.0))
}

/// A side's changes as operations: removals first (links, interfaces,
/// nodes), then additions (nodes, interfaces, links), each ascending.
pub open spec fn side_ops(b: NetworkV, s: NetworkV) -> Seq<OpV> {
    sorted_keys(b.links.dom().difference(s.links.dom())).map_values(|k: LinkKeyV| OpV::RemoveLink(k))
        + sorted_eps(removed_ifaces(b, s)).map_values(|e: EndpointV| OpV::RemoveIface(e))
        + sorted_strs(b.nodes.dom().difference(s.nodes.dom())).map_values(
        |k: Seq<char>| OpV::RemoveNode(k),
    ) + sorted_strs(s.nodes.dom().difference(b.nodes.dom())).map_values(
        |k: Seq<char>| OpV::AddNode(k, s.nodes[k].metadata),
    ) + sorted_eps(iface_set(s).difference(iface_set(b))).map_values(|e: EndpointV| OpV::AddIface(e))
        + sorted_keys(s.links.dom().difference(b.links.dom())).map_values(
        |k: LinkKeyV| OpV::AddLink(k),
    )
}

/// Both sides added node `k`, with different metadata.
pub open spec fn node_conflict(b: NetworkV, o: NetworkV, t: NetworkV, k: Seq<char>) -> bool {
    &&& o.nodes.dom().contains(k) && !b.nodes.dom().contains(k)
    &&& t.nodes.dom().contains(k)
    &&& o.nodes[k].metadata != t.nodes[k].metadata
}

/// Both sides added interface `e`, with different metadata.
pub open spec fn iface_conflict(b: NetworkV, o: NetworkV, t: NetworkV, e: EndpointV) -> bool {
    &&& o.has_endpoint(e) && !b.has_endpoint(e)
    &&& t.has_endpoint(e)
    &&& o.nodes[e.0].interfaces[e.1].metadata != t.nodes[e.0].interfaces[e.1].metadata
}

/// Both sides added link `k`, with different metadata.
pub open spec fn link_conflict(b: NetworkV, o: NetworkV, t: NetworkV, k: LinkKeyV) -> bool {
    &&& o.links.dom().contains(k) && !b.links.dom().contains(k)
    &&& t.links.dom().contains(k)
    &&& o.links[k].metadata != t.links[k].metadata
}

/// Some object was changed on both sides differently.
pub open spec fn has_conflict(b: NetworkV, o: NetworkV, t: NetworkV) -> bool {
    ||| exists|k: Seq<char>| #[trigger] node_conflict(b, o, t, k)
    ||| exists|e: EndpointV| #[trigger] iface_conflict(b, o, t, e)
    ||| exists|k: LinkKeyV| #[trigger] link_conflict(b, o, t, k)
}

/// Two sides conflict only over an object both added with different
/// metadata, so two sides that made the same changes never conflict.
pub proof fn law_conflicts_need_different_content(b: NetworkV, o: NetworkV, t: NetworkV)
    ensures
        forall|k: Seq<char>| #[trigger] node_conflict(b, o, t, k) ==> o.nodes[k].metadata != t.nodes[k].metadata,
        forall|e: EndpointV| #[trigger] iface_conflict(b, o, t, e) ==> o.nodes[e.0].interfaces[e.1].metadata
            != t.nodes[e.0].interfaces[e.1].metadata,
        forall|k: LinkKeyV| #[trigger] link_conflict(b, o, t, k) ==> o.links[k].metadata != t.links[k].metadata,
        !has_conflict(b, o, o),
{
    assert forall|k: Seq<char>| !#[trigger] node_conflict(b, o, o, k) by {}
    assert forall|e: EndpointV| !#[trigger] iface_conflict(b, o, o, e) by {}
    assert forall|k: LinkKeyV| !#[trigger] link_conflict(b, o, o, k) by {}
}

/// The views of a list of operations.
pub open spec fn op_views(ops: Seq<Operation>) -> Seq<OpV> {
    ops.map_values(|op: Operation| op_view(op))
}

/// Every operation in the list is well formed.
pub open spec fn ops_wf(ops: Seq<Operation>) -> bool {
    forall|i: int| 0 <= i < ops.len() ==> (#[trigger] ops[i]).wf()
}

fn push_remove_links(out: &mut Vec<Operation>, ks: Vec<(Endpoint, Endpoint)>)
    requires
        ops_wf(old(out)@),
    ensures
        ops_wf(final(out)@),
        op_views(final(out)@) == op_views(old(out)@) + key_views(ks@).map_values(
            |k: LinkKeyV| OpV::RemoveLink(k),
        ),
{
    let ghost start = op_views(out@);
    let ghost seg = key_views(ks@).map_values(|k: LinkKeyV| OpV::RemoveLink(k));
    let mut i: usize = 0;
    while i < ks.len()
        invariant
            i <= ks@.len(),
            seg == key_views(ks@).map_values(|k: LinkKeyV| OpV::RemoveLink(k)),
            ops_wf(out@),
            op_views(out@) == start + seg.take(i as int),
        decreases ks@.len() - i,
    {
        let ghost before = out@;
        out.push(Operation::RemoveLink { a: ks[i].0.dup_endpoint(), b: ks[i].1.dup_endpoint() });
        proof {
            assert(seg.take(i + 1) =~= seg.take(i as int).push(seg[i as int]));
            assert(op_views(out@) =~= op_views(before).push(seg[i as int]));
        }
        i = i + 1;
    }
    proof {
        assert(seg.take(ks@.len() as int) =~= seg);
    }
}

fn push_add_links(out: &mut Vec<Operation>, ks: Vec<(Endpoint, Endpoint)>)
    requires
        ops_wf(old(out)@),
    ensures
        ops_wf(final(out)@),
        op_views(final(out)@) == op_views(old(out)@) + key_views(ks@).map_values(
            |k: LinkKeyV| OpV::AddLink(k),
        ),
{
    let ghost start = op_views(out@);
    let ghost seg = key_views(ks@).map_values(|k: LinkKeyV| OpV::AddLink(k));
    let mut i: usize = 0;
    while i < ks.len()
        invariant
            i <= ks@.len(),
            seg == key_views(ks@).map_values(|k: LinkKeyV| OpV::AddLink(k)),
            ops_wf(out@),
            op_views(out@) == start + seg.take(i as int),
        decreases ks@.len() - i,
    {
        let ghost before = out@;
        out.push(Operation::AddLink { a: ks[i].0.dup_endpoint(), b: ks[i].1.dup_endpoint() });
        proof {
            assert(seg.take(i + 1) =~= seg.take(i as int).push(seg[i as int]));
            assert(op_views(out@) =~= op_views(before).push(seg[i as int]));
        }
        i = i + 1;
    }
    proof {
        assert(seg.take(ks@.len() as int) =~= seg);
    }
}

fn push_iface_ops(out: &mut Vec<Operation>, es: Vec<(String, String)>, add: bool)
    requires
        ops_wf(old(out)@),
    ensures
        ops_wf(final(out)@),
        op_views(final(out)@) == op_views(old(out)@) + pair_views(es@).map_values(
            |e: EndpointV| if add {
                OpV::AddIface(e)
            } else {
                OpV::RemoveIface(e)
            },
        ),
{
    let ghost start = op_views(out@);
    let ghost seg = pair_views(es@).map_values(
        |e: EndpointV| if add {
            OpV::AddIface(e)
        } else {
            OpV::RemoveIface(e)
        },
    );
    let mut i: usize = 0;
    while i < es.len()
        invariant
            i <= es@.len(),
            seg == pair_views(es@).map_values(
                |e: EndpointV| if add {
                    OpV::AddIface(e)
                } else {
                    OpV::RemoveIface(e)
                },
            ),
            ops_wf(out@),
            op_views(out@) == start + seg.take(i as int),
        decreases es@.len() - i,
    {
        let ghost before = out@;
        let node = es[i].0.clone();
        let name = es[i].1.clone();
        if add {
            out.push(Operation::AddInterface { node, name });
        } else {
            out.push(Operation::RemoveInterface { node, name });
        }
        proof {
            assert(seg.take(i + 1) =~= seg.take(i as int).push(seg[i as int]));
            assert(op_views(out@) =~= op_views(before).push(seg[i as int]));
        }
        i = i + 1;
    }
    proof {
        assert(seg.take(es@.len() as int) =~= seg);
    }
}

fn push_remove_nodes(out: &mut Vec<Operation>, ids: Vec<String>)
    requires
        ops_wf(old(out)@),
    ensures
        ops_wf(final(out)@),
        op_views(final(out)@) == op_views(old(out)@) + str_views(ids@).map_values(
            |k: Seq<char>| OpV::RemoveNode(k),
        ),
{
    let ghost start = op_views(out@);
    let ghost seg = str_views(ids@).map_values(|k: Seq<char>| OpV::RemoveNode(k));
    let mut i: usize = 0;
    while i < ids.len()
        invariant
            i <= ids@.len(),
            seg == str_views(ids@).map_values(|k: Seq<char>| OpV::RemoveNode(k)),
            ops_wf(out@),
            op_views(out@) == start + seg.take(i as int),
        decreases ids@.len() - i,
    {
        let ghost before = out@;
        out.push(Operation::RemoveNode { id: ids[i].clone() });
        proof {
            assert(seg.take(i + 1) =~= seg.take(i as int).push(seg[i as int]));
            assert(op_views(out@) =~= op_views(before).push(seg[i as int]));
        }
        i = i + 1;
    }
    proof {
        assert(seg.take(ids@.len() as int) =~= seg);
    }
}

fn push_add_nodes(out: &mut Vec<Operation>, ids: Vec<String>, side: &Network)
    requires
        ops_wf(old(out)@),
        side.wf(),
        forall|i: int| 0 <= i < ids@.len() ==> side@.nodes.dom().contains(#[trigger] ids@[i]@),
    ensures
        ops_wf(final(out)@),
        op_views(final(out)@) == op_views(old(out)@) + str_views(ids@).map_values(
            |k: Seq<char>| OpV::AddNode(k, side@.nodes[k].metadata),
        ),
{
    let ghost start = op_views(out@);
    let ghost seg = str_views(ids@).map_values(|k: Seq<char>| OpV::AddNode(k, side@.nodes[k].metadata));
    let mut i: usize = 0;
    while i < ids.len()
        invariant
            side.wf(),
            forall|x: int| 0 <= x < ids@.len() ==> side@.nodes.dom().contains(#[trigger] ids@[x]@),
            i <= ids@.len(),
            seg == str_views(ids@).map_values(|k: Seq<char>| OpV::AddNode(k, side@.nodes[k].metadata)),
            ops_wf(out@),
            op_views(out@) == start + seg.take(i as int),
        decreases ids@.len() - i,
    {
        let ghost before = out@;
        let md = match side.node(ids[i].as_str()) {
            Some(n) => n.metadata_ref().duplicate(),
            None => Metadata::new(),
        };
        out.push(Operation::AddNode { id: ids[i].clone(), metadata: md });
        proof {
            assert(side@.nodes.dom().contains(ids@[i as int]@));
            assert(seg.take(i + 1) =~= seg.take(i as int).push(seg[i as int]));
            assert(op_views(out@) =~= op_views(before).push(seg[i as int]));
            assert forall|x: int| 0 <= x < out@.len() implies (#[trigger] out@[x]).wf() by {
                if x < before.len() {
                    assert(out@[x] == before[x]);
                }
            }
        }
        i = i + 1;
    }
    proof {
        assert(seg.take(ids@.len() as int) =~= seg);
    }
}

/// The rejection a tolerant application reports for an operation whose
/// effect is not in place.
pub open spec fn tol_rejection(v: OpV, e: ModelError) -> bool {
    match v {
        OpV::AddNode(id, _) => e matches ModelError::NodeExists { id: x } && x@ == id,
        OpV::RemoveNode(id) => e matches ModelError::NodeMissing { id: x } && x@ == id,
        OpV::AddIface(p) => e matches ModelError::InterfaceExists { node, name } && node@ == p.0
            && name@ == p.1,
        OpV::RemoveIface(p) => e matches ModelError::InterfaceMissing { node, name } && node@ == p.0
            && name@ == p.1,
        OpV::AddLink(k) => e matches ModelError::LinkExists { a, b } && a@ == ep_text(k.0) && b@
            == ep_text(k.1),
        OpV::RemoveLink(k) => e matches ModelError::LinkMissing { a, b } && a@ == ep_text(k.0) && b@
            == ep_text(k.1),
    }
}

/// A rejected prefix rejects the whole sequence.
proof fn lemma_tol_none(vs: Seq<OpV>)
    ensures
        tol_ops(None, vs) is None,
    decreases vs.len(),
{
    if vs.len() > 0 {
        lemma_tol_none(vs.drop_last());
    }
}

/// Applying two sequences in turn is applying their concatenation.
proof fn lemma_tol_append(n: Option<NetworkV>, a: Seq<OpV>, b: Seq<OpV>)
    ensures
        tol_ops(n, a + b) == tol_ops(tol_ops(n, a), b),
    decreases b.len(),
{
    if b.len() == 0 {
        assert(a + b =~= a);
    } else {
        lemma_tol_append(n, a, b.drop_last());
        assert((a + b).drop_last() =~= a + b.drop_last());
        assert((a + b).last() == b.last());
    }
}

/// Apply one operation; when it is rejected but its effect is already in
/// place (the other side made the same change), keep the network as it is.
fn apply_tolerant(net: &Network, op: &Operation) -> (r: Result<Network, TransitionError>)
    requires
        net.wf(),
        op.wf(),
    ensures
        r is Ok <==> tol_step(Some(net@), op_view(*op)) is Some,
        r matches Ok(m) ==> m.wf() && Some(m@) == tol_step(Some(net@), op_view(*op)),
        r matches Err(TransitionError::Invalid(e)) ==> tol_rejection(op_view(*op), e),
{
    proof {
        lemma_op_view(net@, *op);
    }
    match apply(net, op) {
        Ok(next) => Ok(next),
        Err(_) => {
            let in_place = match op {
                Operation::AddNode { id, metadata } => match net.node(id.as_str()) {
                    Some(n) => n.metadata_ref().same(metadata),
                    None => false,
                },
                Operation::RemoveNode { id } => net.node(id.as_str()).is_none(),
                Operation::AddInterface { node, name } => match net.node(node.as_str()) {
                    Some(n) => match n.interface(name.as_str()) {
                        Some(i) => i.metadata.is_empty(),
                        None => false,
                    },
                    None => false,
                },
                Operation::RemoveInterface { node, name } => !has_interface(
                    net,
                    node.as_str(),
                    name.as_str(),
                ),
                Operation::AddLink { a, b } => net.link(a, b).is_some(),
                Operation::RemoveLink { a, b } => net.link(a, b).is_none(),
            };
            if in_place {
                Ok(net.duplicate())
            } else {
                let e = match op {
                    Operation::AddNode { id, .. } => ModelError::NodeExists { id: id.clone() },
                    Operation::RemoveNode { id } => ModelError::NodeMissing { id: id.clone() },
                    Operation::AddInterface { node, name } => ModelError::InterfaceExists {
                        node: node.clone(),
                        name: name.clone(),
                    },
                    Operation::RemoveInterface { node, name } => ModelError::InterfaceMissing {
                        node: node.clone(),
                        name: name.clone(),
                    },
                    Operation::AddLink { a, b } => ModelError::LinkExists { a: a.text(), b: b.text() },
                    Operation::RemoveLink { a, b } => ModelError::LinkMissing {
                        a: a.text(),
                        b: b.text(),
                    },
                };
                Err(TransitionError::Invalid(e))
            }
        },
    }
}

/// Apply operations tolerantly in order, stopping at the first one that is
/// rejected and not already in effect.
fn apply_ops(net: &Network, ops: &Vec<Operation>) -> (r: Result<Network, TransitionError>)
    requires
        net.wf(),
        ops_wf(ops@),
    ensures
        r is Ok <==> tol_ops(Some(net@), op_views(ops@)) is Some,
        r matches Ok(m) ==> m.wf() && Some(m@) == tol_ops(Some(net@), op_views(ops@)),
{
    let mut current = net.duplicate();
    let mut i: usize = 0;
    proof {
        assert(op_views(ops@.take(0)) =~= Seq::<OpV>::empty());
    }
    while i < ops.len()
        invariant
            net.wf(),
            ops_wf(ops@),
            i <= ops@.len(),
            current.wf(),
            Some(current@) == tol_ops(Some(net@), op_views(ops@.take(i as int))),
        decreases ops@.len() - i,
    {
        proof {
            assert(op_views(ops@.take(i + 1)).drop_last() =~= op_views(ops@.take(i as int)));
            assert(op_views(ops@.take(i + 1)).last() == op_view(ops@[i as int]));
            assert(ops@[i as int].wf());
        }
        match apply_tolerant(&current, &ops[i]) {
            Ok(n) => {
                current = n;
            },
            Err(e) => {
                proof {
                    let head = op_views(ops@.take(i + 1));
                    let tail = op_views(ops@.skip(i + 1));
                    lemma_tol_append(Some(net@), head, tail);
                    lemma_tol_none(tail);
                    assert(head + tail =~= op_views(ops@));
                }
                return Err(e);
            },
        }
        i = i + 1;
    }
    proof {
        assert(ops@.take(ops@.len() as int) =~= ops@);
    }
    Ok(current)
}

/// The interfaces `base` has and `side` lacks, on nodes `side` kept,
/// ascending.
pub(crate) fn removed_interfaces(base: &Network, side: &Network) -> (r: Vec<(String, String)>)
    requires
        base.wf(),
        side.wf(),
    ensures
        pair_views(r@) == sorted_eps(removed_ifaces(base@, side@)),
{
    let all = missing_interfaces(base, side);
    let ghost s = pair_views(all@);
    let ghost p = |e: EndpointV| side@.nodes.dom().contains(e.0);
    let mut out: Vec<(String, String)> = Vec::new();
    let mut i: usize = 0;
    while i < all.len()
        invariant
            side.wf(),
            s == pair_views(all@),
            i <= all@.len(),
            pair_views(out@) == s.take(i as int).filter(p),
            p == (|e: EndpointV| side@.nodes.dom().contains(e.0)),
        decreases all@.len() - i,
    {
        let e = &all[i];
        proof {
            lemma_take_filter(s, i as int, p);
            assert(s[i as int] == (e.0@, e.1@));
        }
        if side.node(e.0.as_str()).is_some() {
            let ghost before = out@;
            out.push((e.0.clone(), e.1.clone()));
            proof {
                assert(pair_views(out@) =~= pair_views(before).push((e.0@, e.1@)));
            }
        }
        i = i + 1;
    }
    proof {
        assert(s.take(all@.len() as int) =~= s);
        lemma_ep_strict();
        let d = iface_set(base@).difference(iface_set(side@));
        lemma_sorted_enum_exists_for_ifaces(base);
        assert(d.subset_of(iface_set(base@)));
        vstd::set_lib::lemma_set_subset_finite(iface_set(base@), d);
        lemma_sorted_enum_exists(d, ep_order_fn());
        lemma_filter_sorted_enum(s, d, ep_order_fn(), p);
        assert(d.filter(p) =~= removed_ifaces(base@, side@));
    }
    out
}

/// A finite set of strings in ascending order enumerates it.
proof fn lemma_strs_enumerate(d: Set<Seq<char>>)
    requires
        d.finite(),
    ensures
        enumerates(sorted_strs(d), d),
{
    crate::canonical::lemma_str_strict();
    lemma_sorted_enum_exists(d, crate::canonical::str_order_fn());
}

/// One side's changes against the base, as operations in dependency-safe
/// order: removals (links, interfaces, nodes), then additions (nodes with
/// their metadata, interfaces, links), each ascending.
fn side_operations(base: &Network, side: &Network) -> (r: Vec<Operation>)
    requires
        base.wf(),
        side.wf(),
    ensures
        ops_wf(r@),
        op_views(r@) == side_ops(base@, side@),
{
    let mut ops: Vec<Operation> = Vec::new();
    let ghost v0 = op_views(ops@);
    push_remove_links(&mut ops, missing_links(base, side));
    let ghost v1 = op_views(ops@);
    push_iface_ops(&mut ops, removed_interfaces(base, side), false);
    let ghost v2 = op_views(ops@);
    push_remove_nodes(&mut ops, missing_nodes(base, side));
    let ghost v3 = op_views(ops@);
    let added = missing_nodes(side, base);
    proof {
        side.lemma_orders();
        let d = side@.nodes.dom().difference(base@.nodes.dom());
        side.lemma_metadata_finite();
        vstd::set_lib::lemma_set_subset_finite(side@.nodes.dom(), d);
        lemma_strs_enumerate(d);
        assert forall|i: int| 0 <= i < added@.len() implies side@.nodes.dom().contains(
            #[trigger] added@[i]@,
        ) by {
            assert(str_views(added@)[i] == added@[i]@);
            assert(sorted_strs(d)[i] == added@[i]@);
            assert(sorted_strs(d).contains(added@[i]@));
            assert(d.contains(added@[i]@));
        }
    }
    push_add_nodes(&mut ops, added, side);
    let ghost v4 = op_views(ops@);
    push_iface_ops(&mut ops, missing_interfaces(side, base), true);
    let ghost v5 = op_views(ops@);
    push_add_links(&mut ops, missing_links(side, base));
    proof {
        assert(v0 =~= Seq::<OpV>::empty());
        assert(op_views(ops@) =~= side_ops(base@, side@));
    }
    ops
}

/// The changes from one network to another as operations: the diff's
/// removals (links, interfaces, nodes), then its additions (nodes with
/// their metadata in the target, interfaces, links), each ascending.
pub open spec fn diff_ops(f: NetworkV, t: NetworkV) -> Seq<OpV> {
    sorted_keys(f.links.dom().difference(t.links.dom())).map_values(|k: LinkKeyV| OpV::RemoveLink(k))
        + sorted_eps(iface_set(f).difference(iface_set(t))).map_values(|e: EndpointV| OpV::RemoveIface(e))
        + sorted_strs(f.nodes.dom().difference(t.nodes.dom())).map_values(
        |k: Seq<char>| OpV::RemoveNode(k),
    ) + sorted_strs(t.nodes.dom().difference(f.nodes.dom())).map_values(
        |k: Seq<char>| OpV::AddNode(k, t.nodes[k].metadata),
    ) + sorted_eps(iface_set(t).difference(iface_set(f))).map_values(|e: EndpointV| OpV::AddIface(e))
        + sorted_keys(t.links.dom().difference(f.links.dom())).map_values(
        |k: LinkKeyV| OpV::AddLink(k),
    )
}

/// The operations implied by the diff from `from` to `to`. Metadata edits
/// have no operation, so only additions and removals appear.
pub fn operations_between(from: &Network, to: &Network) -> (r: Vec<Operation>)
    requires
        from.wf(),
        to.wf(),
    ensures
        ops_wf(r@),
        op_views(r@) == diff_ops(from@, to@),
{
    let d = diff(from, to);
    let mut ops: Vec<Operation> = Vec::new();
    let ghost v0 = op_views(ops@);
    push_remove_links(&mut ops, d.removed_links);
    push_iface_ops(&mut ops, d.removed_interfaces, false);
    push_remove_nodes(&mut ops, d.removed_nodes);
    proof {
        to.lemma_orders();
        let dd = to@.nodes.dom().difference(from@.nodes.dom());
        to.lemma_metadata_finite();
        vstd::set_lib::lemma_set_subset_finite(to@.nodes.dom(), dd);
        lemma_strs_enumerate(dd);
        assert forall|i: int| 0 <= i < d.added_nodes@.len() implies to@.nodes.dom().contains(
            #[trigger] d.added_nodes@[i]@,
        ) by {
            assert(str_views(d.added_nodes@)[i] == d.added_nodes@[i]@);
            assert(sorted_strs(dd)[i] == d.added_nodes@[i]@);
            assert(sorted_strs(dd).contains(d.added_nodes@[i]@));
            assert(dd.contains(d.added_nodes@[i]@));
        }
    }
    push_add_nodes(&mut ops, d.added_nodes, to);
    push_iface_ops(&mut ops, d.added_interfaces, true);
    push_add_links(&mut ops, d.added_links);
    proof {
        assert(v0 =~= Seq::<OpV>::empty());
        assert(op_views(ops@) =~= diff_ops(from@, to@));
    }
    ops
}

/// The nodes both sides added with different metadata.
pub open spec fn node_conflicts(b: NetworkV, o: NetworkV, t: NetworkV) -> Set<Seq<char>> {
    Set::new(|k: Seq<char>| node_conflict(b, o, t, k))
}

/// The interfaces both sides added with different metadata.
pub open spec fn iface_conflicts(b: NetworkV, o: NetworkV, t: NetworkV) -> Set<EndpointV> {
    Set::new(|e: EndpointV| iface_conflict(b, o, t, e))
}

/// The links both sides added with different metadata.
pub open spec fn link_conflicts(b: NetworkV, o: NetworkV, t: NetworkV) -> Set<LinkKeyV> {
    Set::new(|k: LinkKeyV| link_conflict(b, o, t, k))
}

/// How many objects conflict: one per node, interface and link.
pub open spec fn conflict_count(b: NetworkV, o: NetworkV, t: NetworkV) -> nat {
    sorted_strs(node_conflicts(b, o, t)).len() + sorted_eps(iface_conflicts(b, o, t)).len()
        + sorted_keys(link_conflicts(b, o, t)).len()
}

/// The merge result: ours applied to the base, then theirs, tolerantly.
pub open spec fn merged(b: NetworkV, o: NetworkV, t: NetworkV) -> Option<NetworkV> {
    tol_ops(tol_ops(Some(b), side_ops(b, o)), side_ops(b, t))
}

/// The nodes both sides added with different metadata, ascending.
fn conflicting_nodes(base: &Network, ours: &Network, theirs: &Network) -> (r: Vec<String>)
    requires
        base.wf(),
        ours.wf(),
        theirs.wf(),
    ensures
        str_views(r@) == sorted_strs(node_conflicts(base@, ours@, theirs@)),
{
    let all = missing_nodes(ours, base);
    let ghost s = str_views(all@);
    let ghost p = |k: Seq<char>|
        theirs@.nodes.dom().contains(k) && ours@.nodes[k].metadata != theirs@.nodes[k].metadata;
    let ghost d = ours@.nodes.dom().difference(base@.nodes.dom());
    proof {
        ours.lemma_metadata_finite();
        vstd::set_lib::lemma_set_subset_finite(ours@.nodes.dom(), d);
        lemma_strs_enumerate(d);
        assert forall|j: int| 0 <= j < s.len() implies ours@.nodes.dom().contains(#[trigger] s[j]) by {
            assert(sorted_strs(d)[j] == s[j]);
            assert(sorted_strs(d).contains(s[j]));
            assert(d.contains(s[j]));
        }
    }
    let mut out: Vec<String> = Vec::new();
    let mut i: usize = 0;
    while i < all.len()
        invariant
            ours.wf(),
            theirs.wf(),
            s == str_views(all@),
            forall|j: int| 0 <= j < s.len() ==> ours@.nodes.dom().contains(#[trigger] s[j]),
            i <= all@.len(),
            str_views(out@) == s.take(i as int).filter(p),
            p == (|k: Seq<char>|
                theirs@.nodes.dom().contains(k) && ours@.nodes[k].metadata
                    != theirs@.nodes[k].metadata),
        decreases all@.len() - i,
    {
        let id = &all[i];
        proof {
            lemma_take_filter(s, i as int, p);
            assert(s[i as int] == id@);
        }
        let differs = match (ours.node(id.as_str()), theirs.node(id.as_str())) {
            (Some(on), Some(tn)) => !on.metadata_ref().same(tn.metadata_ref()),
            _ => false,
        };
        if differs {
            let ghost before = out@;
            out.push(id.clone());
            proof {
                assert(str_views(out@) =~= str_views(before).push(id@));
            }
        }
        i = i + 1;
    }
    proof {
        assert(s.take(all@.len() as int) =~= s);
        crate::canonical::lemma_str_strict();
        lemma_sorted_enum_exists(d, crate::canonical::str_order_fn());
        lemma_filter_sorted_enum(s, d, crate::canonical::str_order_fn(), p);
        assert(d.filter(p) =~= node_conflicts(base@, ours@, theirs@));
    }
    out
}

/// The interfaces both sides added with different metadata, ascending.
fn conflicting_interfaces(base: &Network, ours: &Network, theirs: &Network) -> (r: Vec<
    (String, String),
>)
    requires
        base.wf(),
        ours.wf(),
        theirs.wf(),
    ensures
        pair_views(r@) == sorted_eps(iface_conflicts(base@, ours@, theirs@)),
{
    let all = missing_interfaces(ours, base);
    let ghost s = pair_views(all@);
    let ghost p = |e: EndpointV|
        theirs@.has_endpoint(e) && ours@.nodes[e.0].interfaces[e.1].metadata
            != theirs@.nodes[e.0].interfaces[e.1].metadata;
    let ghost d = iface_set(ours@).difference(iface_set(base@));
    proof {
        lemma_sorted_enum_exists_for_ifaces(ours);
        vstd::set_lib::lemma_set_subset_finite(iface_set(ours@), d);
        lemma_ep_strict();
        lemma_sorted_enum_exists(d, ep_order_fn());
        assert forall|j: int| 0 <= j < s.len() implies ours@.has_endpoint(#[trigger] s[j]) by {
            assert(sorted_eps(d)[j] == s[j]);
            assert(sorted_eps(d).contains(s[j]));
            assert(d.contains(s[j]));
        }
    }
    let mut out: Vec<(String, String)> = Vec::new();
    let mut i: usize = 0;
    while i < all.len()
        invariant
            ours.wf(),
            theirs.wf(),
            s == pair_views(all@),
            forall|j: int| 0 <= j < s.len() ==> ours@.has_endpoint(#[trigger] s[j]),
            i <= all@.len(),
            pair_views(out@) == s.take(i as int).filter(p),
            p == (|e: EndpointV|
                theirs@.has_endpoint(e) && ours@.nodes[e.0].interfaces[e.1].metadata
                    != theirs@.nodes[e.0].interfaces[e.1].metadata),
        decreases all@.len() - i,
    {
        let e = &all[i];
        proof {
            lemma_take_filter(s, i as int, p);
            assert(s[i as int] == (e.0@, e.1@));
        }
        let mut differs = false;
        if let (Some(on), Some(tn)) = (ours.node(e.0.as_str()), theirs.node(e.0.as_str())) {
            if let (Some(oi), Some(ti)) = (on.interface(e.1.as_str()), tn.interface(e.1.as_str())) {
                differs = !oi.metadata.same(&ti.metadata);
            }
        }
        if differs {
            let ghost before = out@;
            out.push((e.0.clone(), e.1.clone()));
            proof {
                assert(pair_views(out@) =~= pair_views(before).push((e.0@, e.1@)));
            }
        }
        i = i + 1;
    }
    proof {
        assert(s.take(all@.len() as int) =~= s);
        lemma_filter_sorted_enum(s, d, ep_order_fn(), p);
        assert(d.filter(p) =~= iface_conflicts(base@, ours@, theirs@));
    }
    out
}

/// The links both sides added with different metadata, ascending.
fn conflicting_links(base: &Network, ours: &Network, theirs: &Network) -> (r: Vec<
    (Endpoint, Endpoint),
>)
    requires
        base.wf(),
        ours.wf(),
        theirs.wf(),
    ensures
        key_views(r@) == sorted_keys(link_conflicts(base@, ours@, theirs@)),
{
    let all = missing_links(ours, base);
    let ghost s = key_views(all@);
    let ghost p = |k: LinkKeyV|
        theirs@.links.dom().contains(k) && ours@.links[k].metadata != theirs@.links[k].metadata;
    let ghost d = ours@.links.dom().difference(base@.links.dom());
    proof {
        ours.lemma_metadata_finite();
        vstd::set_lib::lemma_set_subset_finite(ours@.links.dom(), d);
        crate::canonical::lemma_key_strict();
        lemma_sorted_enum_exists(d, crate::canonical::key_order_fn());
        assert forall|j: int| 0 <= j < s.len() implies ours@.links.dom().contains(#[trigger] s[j]) by {
            assert(sorted_keys(d)[j] == s[j]);
            assert(sorted_keys(d).contains(s[j]));
            assert(d.contains(s[j]));
        }
    }
    let mut out: Vec<(Endpoint, Endpoint)> = Vec::new();
    let mut i: usize = 0;
    while i < all.len()
        invariant
            ours.wf(),
            theirs.wf(),
            ours@.valid(),
            s == key_views(all@),
            forall|j: int| 0 <= j < s.len() ==> ours@.links.dom().contains(#[trigger] s[j]),
            i <= all@.len(),
            key_views(out@) == s.take(i as int).filter(p),
            p == (|k: LinkKeyV|
                theirs@.links.dom().contains(k) && ours@.links[k].metadata
                    != theirs@.links[k].metadata),
        decreases all@.len() - i,
    {
        let k = &all[i];
        proof {
            lemma_take_filter(s, i as int, p);
            assert(s[i as int] == (k.0@, k.1@));
            assert(ours@.links.dom().contains(s[i as int]));
            assert(ep_lt(k.0@, k.1@));
            assert(norm_key(k.0@, k.1@) == (k.0@, k.1@));
        }
        let mut differs = false;
        if let (Some(ol), Some(tl)) = (ours.link(&k.0, &k.1), theirs.link(&k.0, &k.1)) {
            differs = !ol.metadata.same(&tl.metadata);
        }
        if differs {
            let ghost before = out@;
            out.push((k.0.dup_endpoint(), k.1.dup_endpoint()));
            proof {
                assert(key_views(out@) =~= key_views(before).push((k.0@, k.1@)));
            }
        }
        i = i + 1;
    }
    proof {
        assert(s.take(all@.len() as int) =~= s);
        lemma_filter_sorted_enum(s, d, crate::canonical::key_order_fn(), p);
        assert(d.filter(p) =~= link_conflicts(base@, ours@, theirs@));
    }
    out
}

/// The conflict sets are finite, so their ascending enumerations list them.
proof fn lemma_conflict_sets(base: &Network, ours: &Network, theirs: &Network)
    requires
        base.wf(),
        ours.wf(),
        theirs.wf(),
    ensures
        enumerates(sorted_strs(node_conflicts(base@, ours@, theirs@)), node_conflicts(base@, ours@, theirs@)),
        enumerates(sorted_eps(iface_conflicts(base@, ours@, theirs@)), iface_conflicts(base@, ours@, theirs@)),
        enumerates(sorted_keys(link_conflicts(base@, ours@, theirs@)), link_conflicts(base@, ours@, theirs@)),
{
    let (b, o, t) = (base@, ours@, theirs@);
    ours.lemma_metadata_finite();
    lemma_sorted_enum_exists_for_ifaces(ours);
    assert(node_conflicts(b, o, t).subset_of(o.nodes.dom()));
    assert(iface_conflicts(b, o, t).subset_of(iface_set(o)));
    assert(link_conflicts(b, o, t).subset_of(o.links.dom()));
    vstd::set_lib::lemma_set_subset_finite(o.nodes.dom(), node_conflicts(b, o, t));
    vstd::set_lib::lemma_set_subset_finite(iface_set(o), iface_conflicts(b, o, t));
    vstd::set_lib::lemma_set_subset_finite(o.links.dom(), link_conflicts(b, o, t));
    crate::canonical::lemma_str_strict();
    crate::canonical::lemma_key_strict();
    lemma_ep_strict();
    lemma_sorted_enum_exists(node_conflicts(b, o, t), crate::canonical::str_order_fn());
    lemma_sorted_enum_exists(iface_conflicts(b, o, t), ep_order_fn());
    lemma_sorted_enum_exists(link_conflicts(b, o, t), crate::canonical::key_order_fn());
}

/// `p` begins `s`.
pub open spec fn starts_with(s: Seq<char>, p: Seq<char>) -> bool {
    p.len() <= s.len() && s.subrange(0, p.len() as int) == p
}

/// `prefix` followed by a rejection's text.
fn internal_error(prefix: &str, e: &TransitionError) -> (r: String)
    ensures
        starts_with(r@, prefix@),
{
    let mut s = owned(prefix);
    let m = e.message();
    push_str(&mut s, m.as_str());
    proof {
        assert(s@.subrange(0, prefix@.len() as int) =~= prefix@);
    }
    s
}

/// `Added(<metadata>)`, the effect of an addition as `{:?}` writes it.
fn added_text(md: &Metadata) -> (r: String)
    ensures
        r@ == "Added("@ + debug_map(md.entries()) + ")"@,
{
    let mut s = owned("Added(");
    let m = metadata_debug(md);
    push_str(&mut s, m.as_str());
    push_str(&mut s, ")");
    s
}

/// The explanation of one object both sides added differently.
pub open spec fn conflict_text(
    what: Seq<char>,
    ours: Map<Seq<char>, Seq<char>>,
    theirs: Map<Seq<char>, Seq<char>>,
) -> Seq<char> {
    what + " changed on both branches differently (ours: "@ + "Added("@ + debug_map(md_entries(ours))
        + ")"@ + ", theirs: "@ + "Added("@ + debug_map(md_entries(theirs)) + ")"@ + ")"@
}

/// The explanation of a conflicting node.
pub open spec fn node_conflict_text(o: NetworkV, t: NetworkV, k: Seq<char>) -> Seq<char> {
    conflict_text("node "@ + debug_str_spec(k), o.nodes[k].metadata, t.nodes[k].metadata)
}

/// The explanation of a conflicting interface.
pub open spec fn iface_conflict_text(o: NetworkV, t: NetworkV, e: EndpointV) -> Seq<char> {
    conflict_text(
        "interface "@ + e.0 + "/"@ + e.1,
        o.nodes[e.0].interfaces[e.1].metadata,
        t.nodes[e.0].interfaces[e.1].metadata,
    )
}

/// The explanation of a conflicting link.
pub open spec fn link_conflict_text(o: NetworkV, t: NetworkV, k: LinkKeyV) -> Seq<char> {
    conflict_text("link "@ + ep_text(k.0) + " <-> "@ + ep_text(k.1), o.links[k].metadata, t.links[k].metadata)
}

/// The explanations of a conflicting merge: nodes, then interfaces, then
/// links, each in ascending order.
pub open spec fn conflict_texts(b: NetworkV, o: NetworkV, t: NetworkV) -> Seq<Seq<char>> {
    sorted_strs(node_conflicts(b, o, t)).map_values(|k: Seq<char>| node_conflict_text(o, t, k))
        + sorted_eps(iface_conflicts(b, o, t)).map_values(|e: EndpointV| iface_conflict_text(o, t, e))
        + sorted_keys(link_conflicts(b, o, t)).map_values(|k: LinkKeyV| link_conflict_text(o, t, k))
}

/// The explanation of one conflicting object.
fn conflict_line(what: String, ours: &Metadata, theirs: &Metadata) -> (r: String)
    requires
        ours.wf(),
        theirs.wf(),
    ensures
        r@ == conflict_text(what@, ours@, theirs@),
{
    proof {
        lemma_md_entries(ours);
        lemma_md_entries(theirs);
    }
    let mut s = what;
    push_str(&mut s, " changed on both branches differently (ours: ");
    let o = added_text(ours);
    push_str(&mut s, o.as_str());
    push_str(&mut s, ", theirs: ");
    let t = added_text(theirs);
    push_str(&mut s, t.as_str());
    push_str(&mut s, ")");
    proof {
        assert(s@ =~= what@ + " changed on both branches differently (ours: "@ + "Added("@ + debug_map(
            ours.entries(),
        ) + ")"@ + ", theirs: "@ + "Added("@ + debug_map(theirs.entries()) + ")"@ + ")"@);
    }
    s
}

/// One explanation per conflicting object: nodes, then interfaces, then
/// links, in the order given.
#[verifier::rlimit(40)]
fn explain_conflicts(
    base: &Network,
    ours: &Network,
    theirs: &Network,
    nodes: Vec<String>,
    ifaces: Vec<(String, String)>,
    links: Vec<(Endpoint, Endpoint)>,
) -> (r: Vec<String>)
    requires
        base.wf(),
        ours.wf(),
        theirs.wf(),
        str_views(nodes@) == sorted_strs(node_conflicts(base@, ours@, theirs@)),
        pair_views(ifaces@) == sorted_eps(iface_conflicts(base@, ours@, theirs@)),
        key_views(links@) == sorted_keys(link_conflicts(base@, ours@, theirs@)),
        enumerates(sorted_strs(node_conflicts(base@, ours@, theirs@)), node_conflicts(base@, ours@, theirs@)),
        enumerates(sorted_eps(iface_conflicts(base@, ours@, theirs@)), iface_conflicts(base@, ours@, theirs@)),
        enumerates(sorted_keys(link_conflicts(base@, ours@, theirs@)), link_conflicts(base@, ours@, theirs@)),
    ensures
        str_views(r@) == conflict_texts(base@, ours@, theirs@),
{
    proof {
        ours.lemma_valid();
    }
    let mut conflicts: Vec<String> = Vec::new();
    let mut i: usize = 0;
    while i < nodes.len()
        invariant
            ours.wf(),
            theirs.wf(),
            i <= nodes@.len(),
            conflicts@.len() == i,
            str_views(nodes@) == sorted_strs(node_conflicts(base@, ours@, theirs@)),
            forall|x: Seq<char>| sorted_strs(node_conflicts(base@, ours@, theirs@)).contains(x)
                ==> node_conflicts(base@, ours@, theirs@).contains(x),
            forall|j: int| 0 <= j < i ==> (#[trigger] conflicts@[j])@ == node_conflict_text(
                ours@,
                theirs@,
                nodes@[j]@,
            ),
        decreases nodes@.len() - i,
    {
        let mut what = owned("node ");
        let q = debug_str(nodes[i].as_str());
        push_str(&mut what, q.as_str());
        let empty = Metadata::new();
        let om = match ours.node(nodes[i].as_str()) {
            Some(n) => n.metadata_ref(),
            None => &empty,
        };
        let tm = match theirs.node(nodes[i].as_str()) {
            Some(n) => n.metadata_ref(),
            None => &empty,
        };
        proof {
            assert(str_views(nodes@)[i as int] == nodes@[i as int]@);
            assert(node_conflicts(base@, ours@, theirs@).contains(nodes@[i as int]@));
        }
        let ghost before = conflicts@;
        conflicts.push(conflict_line(what, om, tm));
        proof {
            assert forall|j: int| 0 <= j < i + 1 implies (#[trigger] conflicts@[j])@ == node_conflict_text(
                ours@,
                theirs@,
                nodes@[j]@,
            ) by {
                if j < i {
                    assert(conflicts@[j] == before[j]);
                }
            }
        }
        i = i + 1;
    }
    let ghost n0 = conflicts@;
    let mut i: usize = 0;
    while i < ifaces.len()
        invariant
            ours.wf(),
            theirs.wf(),
            i <= ifaces@.len(),
            conflicts@.len() == nodes@.len() + i,
            n0.len() == nodes@.len(),
            conflicts@.take(nodes@.len() as int) == n0,
            pair_views(ifaces@) == sorted_eps(iface_conflicts(base@, ours@, theirs@)),
            forall|x: EndpointV| sorted_eps(iface_conflicts(base@, ours@, theirs@)).contains(x)
                ==> iface_conflicts(base@, ours@, theirs@).contains(x),
            forall|j: int| 0 <= j < i ==> (#[trigger] conflicts@[nodes@.len() + j])@ == iface_conflict_text(
                ours@,
                theirs@,
                pair_views(ifaces@)[j],
            ),
        decreases ifaces@.len() - i,
    {
        let e = &ifaces[i];
        let mut what = owned("interface ");
        push_str(&mut what, e.0.as_str());
        push_str(&mut what, "/");
        push_str(&mut what, e.1.as_str());
        let empty = Metadata::new();
        let om = match ours.node(e.0.as_str()) {
            Some(n) => match n.interface(e.1.as_str()) {
                Some(x) => &x.metadata,
                None => &empty,
            },
            None => &empty,
        };
        let tm = match theirs.node(e.0.as_str()) {
            Some(n) => match n.interface(e.1.as_str()) {
                Some(x) => &x.metadata,
                None => &empty,
            },
            None => &empty,
        };
        proof {
            assert(iface_conflicts(base@, ours@, theirs@).contains(pair_views(ifaces@)[i as int]));
            assert(what@ =~= "interface "@ + e.0@ + "/"@ + e.1@);
        }
        let ghost before = conflicts@;
        conflicts.push(conflict_line(what, om, tm));
        proof {
            assert(conflicts@.take(nodes@.len() as int) =~= before.take(nodes@.len() as int));
            assert forall|j: int| 0 <= j < i + 1 implies (#[trigger] conflicts@[nodes@.len() + j])@
                == iface_conflict_text(ours@, theirs@, pair_views(ifaces@)[j]) by {
                if j < i {
                    assert(conflicts@[nodes@.len() + j] == before[nodes@.len() + j]);
                }
            }
        }
        i = i + 1;
    }
    let ghost n1 = conflicts@;
    let mut i: usize = 0;
    while i < links.len()
        invariant
            ours.wf(),
            theirs.wf(),
            ours@.valid(),
            i <= links@.len(),
            conflicts@.len() == nodes@.len() + ifaces@.len() + i,
            n1.len() == nodes@.len() + ifaces@.len(),
            conflicts@.take(n1.len() as int) == n1,
            key_views(links@) == sorted_keys(link_conflicts(base@, ours@, theirs@)),
            forall|x: LinkKeyV| sorted_keys(link_conflicts(base@, ours@, theirs@)).contains(x)
                ==> link_conflicts(base@, ours@, theirs@).contains(x),
            forall|j: int| 0 <= j < i ==> (#[trigger] conflicts@[n1.len() + j])@ == link_conflict_text(
                ours@,
                theirs@,
                key_views(links@)[j],
            ),
        decreases links@.len() - i,
    {
        let k = &links[i];
        let mut what = owned("link ");
        let at = k.0.text();
        push_str(&mut what, at.as_str());
        push_str(&mut what, " <-> ");
        let bt = k.1.text();
        push_str(&mut what, bt.as_str());
        let empty = Metadata::new();
        let om = match ours.link(&k.0, &k.1) {
            Some(l) => &l.metadata,
            None => &empty,
        };
        let tm = match theirs.link(&k.0, &k.1) {
            Some(l) => &l.metadata,
            None => &empty,
        };
        proof {
            let kv = key_views(links@)[i as int];
            assert(kv == (k.0@, k.1@));
            assert(link_conflicts(base@, ours@, theirs@).contains(kv));
            assert(ours@.links.dom().contains(kv));
            assert(ep_lt(kv.0, kv.1));
            lemma_ep_strict();
            assert((ep_order_fn())(kv.0, kv.1));
            if ep_lt(kv.1, kv.0) {
                assert((ep_order_fn())(kv.1, kv.0));
                assert((ep_order_fn())(kv.0, kv.0));
            }
            assert(norm_key(k.0@, k.1@) == kv);
            assert(what@ =~= "link "@ + ep_text(k.0@) + " <-> "@ + ep_text(k.1@));
        }
        let ghost before = conflicts@;
        conflicts.push(conflict_line(what, om, tm));
        proof {
            assert(conflicts@.take(n1.len() as int) =~= before.take(n1.len() as int));
            assert forall|j: int| 0 <= j < i + 1 implies (#[trigger] conflicts@[n1.len() + j])@
                == link_conflict_text(ours@, theirs@, key_views(links@)[j]) by {
                if j < i {
                    assert(conflicts@[n1.len() + j] == before[n1.len() + j]);
                }
            }
        }
        i = i + 1;
    }
    proof {
        let (b, o, t) = (base@, ours@, theirs@);
        let full = conflict_texts(b, o, t);
        let cv = str_views(conflicts@);
        assert forall|j: int| 0 <= j < cv.len() implies #[trigger] cv[j] == full[j] by {
            assert(cv[j] == conflicts@[j]@);
            if j < nodes@.len() {
                assert(conflicts@[j] == n0[j]);
                assert(conflicts@[j] == n1[j]);
                assert(str_views(nodes@)[j] == nodes@[j]@);
            } else if j < n1.len() {
                assert(conflicts@[j] == n1[j]);
                assert(conflicts@[nodes@.len() + (j - nodes@.len())] == conflicts@[j]);
            } else {
                assert(conflicts@[n1.len() + (j - n1.len())] == conflicts@[j]);
            }
        }
        assert(cv =~= full);
    }
    conflicts
}

/// Three-way semantic merge of `ours` and `theirs` against their common
/// ancestor `base`. When some object was added on both sides with
/// different content the merge is rejected with one explanation per such
/// object. Otherwise ours' changes, then theirs', are applied to the base
/// as operations (a change the other side already made is tolerated); a
/// rejected operation rejects the merge. The result is a candidate that
/// still has to pass verification.
pub fn merge(base: &Network, ours: &Network, theirs: &Network) -> (r: Result<Network, MergeConflict>)
    requires
        base.wf(),
        ours.wf(),
        theirs.wf(),
    ensures
        r is Ok <==> !has_conflict(base@, ours@, theirs@) && merged(base@, ours@, theirs@) is Some,
        r matches Ok(m) ==> m.wf() && Some(m@) == merged(base@, ours@, theirs@),
        has_conflict(base@, ours@, theirs@) ==> (r matches Err(c) && str_views(c.conflicts@)
            == conflict_texts(base@, ours@, theirs@) && c.conflicts@.len() == conflict_count(
            base@,
            ours@,
            theirs@,
        )),
        !has_conflict(base@, ours@, theirs@) && tol_ops(Some(base@), side_ops(base@, ours@)) is None
            ==> (r matches Err(c) && c.conflicts@.len() == 1 && starts_with(
            c.conflicts@[0]@,
            "internal merge error (ours): "@,
        )),
        !has_conflict(base@, ours@, theirs@) && tol_ops(Some(base@), side_ops(base@, ours@)) is Some
            && merged(base@, ours@, theirs@) is None ==> (r matches Err(c) && c.conflicts@.len()
            == 1 && starts_with(c.conflicts@[0]@, "internal merge error (theirs): "@)),
{
    let nodes = conflicting_nodes(base, ours, theirs);
    let ifaces = conflicting_interfaces(base, ours, theirs);
    let links = conflicting_links(base, ours, theirs);
    proof {
        lemma_conflict_sets(base, ours, theirs);
        let (b, o, t) = (base@, ours@, theirs@);
        if exists|k: Seq<char>| #[trigger] node_conflict(b, o, t, k) {
            let k = choose|k: Seq<char>| #[trigger] node_conflict(b, o, t, k);
            assert(node_conflicts(b, o, t).contains(k));
        }
        if exists|e: EndpointV| #[trigger] iface_conflict(b, o, t, e) {
            let e = choose|e: EndpointV| #[trigger] iface_conflict(b, o, t, e);
            assert(iface_conflicts(b, o, t).contains(e));
        }
        if exists|k: LinkKeyV| #[trigger] link_conflict(b, o, t, k) {
            let k = choose|k: LinkKeyV| #[trigger] link_conflict(b, o, t, k);
            assert(link_conflicts(b, o, t).contains(k));
        }
        if nodes@.len() > 0 {
            let k = str_views(nodes@)[0];
            assert(sorted_strs(node_conflicts(b, o, t))[0] == k);
            assert(sorted_strs(node_conflicts(b, o, t)).contains(k));
            assert(node_conflicts(b, o, t).contains(k));
            assert(node_conflict(b, o, t, k));
        }
        if ifaces@.len() > 0 {
            let e = pair_views(ifaces@)[0];
            assert(sorted_eps(iface_conflicts(b, o, t))[0] == e);
            assert(sorted_eps(iface_conflicts(b, o, t)).contains(e));
            assert(iface_conflicts(b, o, t).contains(e));
            assert(iface_conflict(b, o, t, e));
        }
        if links@.len() > 0 {
            let k = key_views(links@)[0];
            assert(sorted_keys(link_conflicts(b, o, t))[0] == k);
            assert(sorted_keys(link_conflicts(b, o, t)).contains(k));
            assert(link_conflicts(b, o, t).contains(k));
            assert(link_conflict(b, o, t, k));
        }
    }
    if nodes.len() > 0 || ifaces.len() > 0 || links.len() > 0 {
        let conflicts = explain_conflicts(base, ours, theirs, nodes, ifaces, links);
        proof {
            assert(str_views(conflicts@).len() == conflicts@.len());
            assert(conflict_texts(base@, ours@, theirs@).len() == conflict_count(base@, ours@, theirs@));
        }
        return Err(MergeConflict { conflicts });
    }
    let ours_ops = side_operations(base, ours);
    let theirs_ops = side_operations(base, theirs);
    let mid = match apply_ops(base, &ours_ops) {
        Ok(m) => m,
        Err(e) => {
            proof {
                lemma_tol_none(side_ops(base@, theirs@));
            }
            let line = internal_error("internal merge error (ours): ", &e);
            return Err(MergeConflict { conflicts: vec![line] });
        },
    };
    match apply_ops(&mid, &theirs_ops) {
        Ok(m) => Ok(m),
        Err(e) => {
            let line = internal_error("internal merge error (theirs): ", &e);
            Err(MergeConflict { conflicts: vec![line] })
        },
    }
}

} // verus!
