//! The operations derived from a diff rebuild the target: applied to the
//! source network, they produce the target whenever the two differ only in
//! topology (there is no operation that edits metadata).
use vstd::prelude::*;
use crate::model::{Network, NetworkV, NodeV, InterfaceV, LinkV, EndpointV, LinkKeyV, ep_lt, norm_key, bare_link, valid_id};
use crate::transition::{Operation, op_result, ops_result};
use crate::sim::{ActionV, plan_actions};
use crate::merge::{
    OpV, op_view, opv_result, op_views, diff_ops, tol_ops, tol_step, side_ops, removed_ifaces, merged,
    has_conflict, node_conflict, iface_conflict, link_conflict, already,
};
use crate::diff::{iface_set, sorted_eps, ep_order_fn, lemma_ep_strict, lemma_sorted_enum_exists_for_ifaces};
use crate::canonical::{sorted_strs, sorted_keys, str_order_fn, key_order_fn, lemma_str_strict, lemma_key_strict};
use crate::seqs::{sorted_by, enumerates, strict_order, lemma_sorted_enum_exists};

verus! {

/// Operations by view, applied strictly in order; `None` at the first
/// rejection.
pub open spec fn run(n: NetworkV, vs: Seq<OpV>) -> Option<NetworkV>
    decreases vs.len(),
{
    if vs.len() == 0 {
        Some(n)
    } else {
        match run(n, vs.drop_last()) {
            Some(m) => opv_result(m, vs.last()),
            None => None,
        }
    }
}

/// Two networks differ only in topology: every node, interface and link
/// that both have carries the same metadata, and every interface and link
/// that only the target has carries none.
pub open spec fn differs_in_topology_only(f: NetworkV, t: NetworkV) -> bool {
    &&& forall|k: Seq<char>|
        f.nodes.dom().contains(k) && #[trigger] t.nodes.dom().contains(k) ==> f.nodes[k].metadata
            == t.nodes[k].metadata
    &&& forall|e: EndpointV|
        f.has_endpoint(e) && #[trigger] t.has_endpoint(e) ==> f.nodes[e.0].interfaces[e.1].metadata
            == t.nodes[e.0].interfaces[e.1].metadata
    &&& forall|e: EndpointV|
        !f.has_endpoint(e) && #[trigger] t.has_endpoint(e) ==> t.nodes[e.0].interfaces[e.1].metadata
            == Map::<Seq<char>, Seq<char>>::empty()
    &&& forall|k: LinkKeyV|
        f.links.dom().contains(k) && #[trigger] t.links.dom().contains(k) ==> f.links[k].metadata
            == t.links[k].metadata
    &&& forall|k: LinkKeyV|
        !f.links.dom().contains(k) && #[trigger] t.links.dom().contains(k) ==> t.links[k].metadata
            == Map::<Seq<char>, Seq<char>>::empty()
}

proof fn lemma_run_append(n: NetworkV, a: Seq<OpV>, b: Seq<OpV>)
    ensures
        run(n, a + b) == (match run(n, a) {
            Some(m) => run(m, b),
            None => None,
        }),
    decreases b.len(),
{
    if b.len() == 0 {
        assert(a + b =~= a);
    } else {
        assert((a + b).drop_last() =~= a + b.drop_last());
        lemma_run_append(n, a, b.drop_last());
    }
}

proof fn lemma_run_single(n: NetworkV, v: OpV)
    ensures
        run(n, seq![v]) == opv_result(n, v),
{
    assert(seq![v].drop_last() =~= Seq::<OpV>::empty());
    assert(run(n, Seq::<OpV>::empty()) == Some(n));
    assert(seq![v].last() == v);
}

/// Strict application of operations agrees with strict application of
/// their views.
proof fn lemma_ops_result_run(n: NetworkV, ops: Seq<Operation>)
    ensures
        ops_result(n, ops) == run(n, op_views(ops)),
    decreases ops.len(),
{
    if ops.len() == 0 {
        assert(op_views(ops) =~= Seq::<OpV>::empty());
    } else {
        let vs = op_views(ops);
        assert(vs =~= seq![op_view(ops[0])] + op_views(ops.drop_first()));
        lemma_run_append(n, seq![op_view(ops[0])], op_views(ops.drop_first()));
        lemma_run_single(n, op_view(ops[0]));
        assert(op_result(n, ops[0]) == opv_result(n, op_view(ops[0])));
        match op_result(n, ops[0]) {
            Some(m) => {
                lemma_ops_result_run(m, ops.drop_first());
            },
            None => {},
        }
    }
}

proof fn lemma_sorted_no_dups<A>(s: Seq<A>, lt: spec_fn(A, A) -> bool)
    requires
        sorted_by(s, lt),
        strict_order(lt),
    ensures
        s.no_duplicates(),
{
    assert forall|i: int, j: int| 0 <= i < s.len() && 0 <= j < s.len() && i != j implies s[i] != s[j] by {
        if i < j {
            assert(lt(s[i], s[j]));
            if s[i] == s[j] {
                assert(!lt(s[i], s[i]));
            }
        } else {
            assert(lt(s[j], s[i]));
            if s[i] == s[j] {
                assert(!lt(s[j], s[j]));
            }
        }
    }
}

proof fn lemma_enum_to_set<A>(s: Seq<A>, d: Set<A>)
    requires
        enumerates(s, d),
    ensures
        s.to_set() == d,
{
    assert forall|x: A| #[trigger] s.to_set().contains(x) <==> d.contains(x) by {
        assert(s.to_set().contains(x) <==> s.contains(x));
    }
    assert(s.to_set() =~= d);
}

proof fn lemma_ep_asym(a: EndpointV, b: EndpointV)
    requires
        ep_lt(a, b),
    ensures
        !ep_lt(b, a),
        norm_key(a, b) == (a, b),
{
    lemma_ep_strict();
    let lt = ep_order_fn();
    if ep_lt(b, a) {
        assert(lt(a, b) && lt(b, a));
        assert(lt(a, a));
    }
}

/// The set of a sequence grows by its last element, which the rest of a
/// duplicate-free sequence does not hold.
proof fn lemma_set_last<A>(ks: Seq<A>)
    requires
        ks.len() > 0,
        ks.no_duplicates(),
    ensures
        ks.to_set() == ks.drop_last().to_set().insert(ks.last()),
        !ks.drop_last().to_set().contains(ks.last()),
        ks.drop_last().no_duplicates(),
{
    let p = ks.drop_last();
    let x = ks.last();
    assert(!p.to_set().contains(x)) by {
        if p.contains(x) {
            let j = choose|j: int| 0 <= j < p.len() && p[j] == x;
            assert(ks[j] == ks[ks.len() - 1]);
        }
    }
    assert(ks.to_set() =~= p.to_set().insert(x)) by {
        assert forall|y: A| ks.to_set().contains(y) <==> p.to_set().insert(x).contains(y) by {
            if ks.contains(y) && y != x {
                let j = choose|j: int| 0 <= j < ks.len() && ks[j] == y;
                assert(p[j] == y);
            }
            if p.contains(y) {
                let j = choose|j: int| 0 <= j < p.len() && p[j] == y;
                assert(ks[j] == y);
            }
        }
    }
    assert forall|i: int, j: int| 0 <= i < p.len() && 0 <= j < p.len() && i != j implies p[i] != p[j] by {
        assert(p[i] == ks[i] && p[j] == ks[j]);
    }
}

// ---- links removed ----
pub open spec fn without_links(n: NetworkV, s: Set<LinkKeyV>) -> NetworkV {
    NetworkV { nodes: n.nodes, links: n.links.remove_keys(s) }
}

proof fn lemma_remove_links(n: NetworkV, ks: Seq<LinkKeyV>)
    requires
        n.valid(),
        ks.no_duplicates(),
        forall|i: int| 0 <= i < ks.len() ==> n.links.dom().contains(#[trigger] ks[i]),
    ensures
        run(n, ks.map_values(|k: LinkKeyV| OpV::RemoveLink(k))) == Some(without_links(n, ks.to_set())),
    decreases ks.len(),
{
    let vs = ks.map_values(|k: LinkKeyV| OpV::RemoveLink(k));
    if ks.len() == 0 {
        assert(ks.to_set() =~= Set::<LinkKeyV>::empty());
        assert(without_links(n, ks.to_set()).links =~= n.links);
    } else {
        let p = ks.drop_last();
        let x = ks.last();
        assert(vs.drop_last() =~= p.map_values(|k: LinkKeyV| OpV::RemoveLink(k)));
        assert forall|i: int| 0 <= i < p.len() implies n.links.dom().contains(#[trigger] p[i]) by {
            assert(p[i] == ks[i]);
        }
        lemma_set_last(ks);
        lemma_remove_links(n, p);
        let m = without_links(n, p.to_set());
        assert(n.links.dom().contains(x));
        lemma_ep_asym(x.0, x.1);
        lemma_set_last(ks);
        assert(m.links.dom().contains(x));
        assert(vs.last() == OpV::RemoveLink(x));
        assert(m.links.remove(x) =~= n.links.remove_keys(ks.to_set()));
    }
}

// ---- interfaces removed ----
pub open spec fn strip_ifaces(n: NetworkV, s: Set<EndpointV>) -> NetworkV {
    NetworkV {
        nodes: Map::new(
            |k: Seq<char>| n.nodes.dom().contains(k),
            |k: Seq<char>|
                NodeV {
                    interfaces: n.nodes[k].interfaces.remove_keys(
                        Set::new(|nm: Seq<char>| s.contains((k, nm))),
                    ),
                    ..n.nodes[k]
                },
        ),
        links: n.links,
    }
}

proof fn lemma_remove_ifaces(n: NetworkV, es: Seq<EndpointV>)
    requires
        es.no_duplicates(),
        forall|i: int| 0 <= i < es.len() ==> n.has_endpoint(#[trigger] es[i]),
        forall|i: int| 0 <= i < es.len() ==> !n.iface_linked(#[trigger] es[i]),
    ensures
        run(n, es.map_values(|e: EndpointV| OpV::RemoveIface(e))) == Some(strip_ifaces(n, es.to_set())),
    decreases es.len(),
{
    let vs = es.map_values(|e: EndpointV| OpV::RemoveIface(e));
    if es.len() == 0 {
        assert(es.to_set() =~= Set::<EndpointV>::empty());
        let z = strip_ifaces(n, es.to_set());
        assert forall|k: Seq<char>| n.nodes.dom().contains(k) implies z.nodes[k] == n.nodes[k] by {
            assert(z.nodes[k].interfaces =~= n.nodes[k].interfaces);
        }
        assert(z.nodes =~= n.nodes);
    } else {
        let p = es.drop_last();
        let x = es.last();
        lemma_set_last(es);
        assert(vs.drop_last() =~= p.map_values(|e: EndpointV| OpV::RemoveIface(e)));
        assert forall|i: int| 0 <= i < p.len() implies n.has_endpoint(#[trigger] p[i]) && !n.iface_linked(p[i]) by {
            assert(p[i] == es[i]);
        }
        lemma_remove_ifaces(n, p);
        let m = strip_ifaces(n, p.to_set());
        assert(n.has_endpoint(x) && !n.iface_linked(x));
        assert(vs.last() == OpV::RemoveIface(x));
        assert(m.nodes.dom().contains(x.0));
        assert(m.nodes[x.0].interfaces.dom().contains(x.1));
        assert(!m.iface_linked(x));
        let r = crate::model::without_interface(m, x.0, x.1);
        let z = strip_ifaces(n, es.to_set());
        assert forall|k: Seq<char>| #[trigger] r.nodes.dom().contains(k) <==> z.nodes.dom().contains(k) by {}
        assert forall|k: Seq<char>| r.nodes.dom().contains(k) implies r.nodes[k] == z.nodes[k] by {
            if k == x.0 {
                assert(r.nodes[k].interfaces =~= z.nodes[k].interfaces);
            } else {
                assert(r.nodes[k].interfaces =~= z.nodes[k].interfaces);
            }
        }
        assert(r.nodes =~= z.nodes);
    }
}

// ---- nodes removed ----
pub open spec fn without_nodes(n: NetworkV, s: Set<Seq<char>>) -> NetworkV {
    NetworkV { nodes: n.nodes.remove_keys(s), links: n.links }
}

proof fn lemma_remove_nodes(n: NetworkV, ids: Seq<Seq<char>>)
    requires
        ids.no_duplicates(),
        forall|i: int| 0 <= i < ids.len() ==> n.nodes.dom().contains(#[trigger] ids[i]),
        forall|i: int| 0 <= i < ids.len() ==> !n.node_linked(#[trigger] ids[i]),
    ensures
        run(n, ids.map_values(|k: Seq<char>| OpV::RemoveNode(k))) == Some(without_nodes(n, ids.to_set())),
    decreases ids.len(),
{
    let vs = ids.map_values(|k: Seq<char>| OpV::RemoveNode(k));
    if ids.len() == 0 {
        assert(ids.to_set() =~= Set::<Seq<char>>::empty());
        assert(without_nodes(n, ids.to_set()).nodes =~= n.nodes);
    } else {
        let p = ids.drop_last();
        let x = ids.last();
        lemma_set_last(ids);
        assert(vs.drop_last() =~= p.map_values(|k: Seq<char>| OpV::RemoveNode(k)));
        assert forall|i: int| 0 <= i < p.len() implies n.nodes.dom().contains(#[trigger] p[i]) && !n.node_linked(p[i]) by {
            assert(p[i] == ids[i]);
        }
        lemma_remove_nodes(n, p);
        let m = without_nodes(n, p.to_set());
        assert(n.nodes.dom().contains(x) && !n.node_linked(x));
        assert(vs.last() == OpV::RemoveNode(x));
        assert(m.nodes.dom().contains(x));
        assert(!m.node_linked(x));
        assert(m.nodes.remove(x) =~= n.nodes.remove_keys(ids.to_set()));
    }
}

// ---- nodes added ----
pub open spec fn fresh_nodes(t: NetworkV, s: Set<Seq<char>>) -> Map<Seq<char>, NodeV> {
    Map::new(
        |k: Seq<char>| s.contains(k),
        |k: Seq<char>|
            NodeV { id: k, metadata: t.nodes[k].metadata, interfaces: Map::<Seq<char>, InterfaceV>::empty() },
    )
}

pub open spec fn with_nodes(n: NetworkV, t: NetworkV, s: Set<Seq<char>>) -> NetworkV {
    NetworkV { nodes: n.nodes.union_prefer_right(fresh_nodes(t, s)), links: n.links }
}

proof fn lemma_add_nodes(n: NetworkV, t: NetworkV, ids: Seq<Seq<char>>)
    requires
        ids.no_duplicates(),
        forall|i: int| 0 <= i < ids.len() ==> valid_id(#[trigger] ids[i]),
        forall|i: int| 0 <= i < ids.len() ==> !n.nodes.dom().contains(#[trigger] ids[i]),
    ensures
        run(n, ids.map_values(|k: Seq<char>| OpV::AddNode(k, t.nodes[k].metadata))) == Some(
            with_nodes(n, t, ids.to_set()),
        ),
    decreases ids.len(),
{
    let vs = ids.map_values(|k: Seq<char>| OpV::AddNode(k, t.nodes[k].metadata));
    if ids.len() == 0 {
        assert(ids.to_set() =~= Set::<Seq<char>>::empty());
        assert(with_nodes(n, t, ids.to_set()).nodes =~= n.nodes);
    } else {
        let p = ids.drop_last();
        let x = ids.last();
        lemma_set_last(ids);
        assert(vs.drop_last() =~= p.map_values(|k: Seq<char>| OpV::AddNode(k, t.nodes[k].metadata)));
        assert forall|i: int| 0 <= i < p.len() implies valid_id(#[trigger] p[i]) && !n.nodes.dom().contains(p[i]) by {
            assert(p[i] == ids[i]);
        }
        lemma_add_nodes(n, t, p);
        let m = with_nodes(n, t, p.to_set());
        assert(valid_id(x) && !n.nodes.dom().contains(x));
        assert(vs.last() == OpV::AddNode(x, t.nodes[x].metadata));
        assert(!m.nodes.dom().contains(x));
        let z = with_nodes(n, t, ids.to_set());
        assert(m.nodes.insert(
            x,
            NodeV { id: x, metadata: t.nodes[x].metadata, interfaces: Map::<Seq<char>, InterfaceV>::empty() },
        ) =~= z.nodes);
    }
}

// ---- interfaces added ----
pub open spec fn graft_ifaces(n: NetworkV, s: Set<EndpointV>) -> NetworkV {
    NetworkV {
        nodes: Map::new(
            |k: Seq<char>| n.nodes.dom().contains(k),
            |k: Seq<char>|
                NodeV {
                    interfaces: n.nodes[k].interfaces.union_prefer_right(
                        Map::new(
                            |nm: Seq<char>| s.contains((k, nm)),
                            |nm: Seq<char>| InterfaceV { name: nm, metadata: Map::empty() },
                        ),
                    ),
                    ..n.nodes[k]
                },
        ),
        links: n.links,
    }
}

proof fn lemma_add_ifaces(n: NetworkV, es: Seq<EndpointV>)
    requires
        es.no_duplicates(),
        forall|i: int| 0 <= i < es.len() ==> valid_id((#[trigger] es[i]).1),
        forall|i: int| 0 <= i < es.len() ==> n.nodes.dom().contains((#[trigger] es[i]).0),
        forall|i: int| 0 <= i < es.len() ==> !n.has_endpoint(#[trigger] es[i]),
    ensures
        run(n, es.map_values(|e: EndpointV| OpV::AddIface(e))) == Some(graft_ifaces(n, es.to_set())),
    decreases es.len(),
{
    let vs = es.map_values(|e: EndpointV| OpV::AddIface(e));
    if es.len() == 0 {
        assert(es.to_set() =~= Set::<EndpointV>::empty());
        let z = graft_ifaces(n, es.to_set());
        assert forall|k: Seq<char>| n.nodes.dom().contains(k) implies z.nodes[k] == n.nodes[k] by {
            assert(z.nodes[k].interfaces =~= n.nodes[k].interfaces);
        }
        assert(z.nodes =~= n.nodes);
    } else {
        let p = es.drop_last();
        let x = es.last();
        lemma_set_last(es);
        assert(vs.drop_last() =~= p.map_values(|e: EndpointV| OpV::AddIface(e)));
        assert forall|i: int| 0 <= i < p.len() implies valid_id((#[trigger] p[i]).1) && n.nodes.dom().contains(p[i].0)
            && !n.has_endpoint(p[i]) by {
            assert(p[i] == es[i]);
        }
        lemma_add_ifaces(n, p);
        let m = graft_ifaces(n, p.to_set());
        assert(valid_id(x.1) && n.nodes.dom().contains(x.0) && !n.has_endpoint(x));
        assert(vs.last() == OpV::AddIface(x));
        assert(m.nodes.dom().contains(x.0));
        assert(!m.nodes[x.0].interfaces.dom().contains(x.1));
        let r = crate::model::with_interface(m, x.0, x.1);
        let z = graft_ifaces(n, es.to_set());
        assert forall|k: Seq<char>| #[trigger] r.nodes.dom().contains(k) <==> z.nodes.dom().contains(k) by {}
        assert forall|k: Seq<char>| r.nodes.dom().contains(k) implies r.nodes[k] == z.nodes[k] by {
            assert(r.nodes[k].interfaces =~= z.nodes[k].interfaces);
        }
        assert(r.nodes =~= z.nodes);
    }
}

// ---- links added ----
pub open spec fn bare_links(s: Set<LinkKeyV>) -> Map<LinkKeyV, LinkV> {
    Map::new(|k: LinkKeyV| s.contains(k), |k: LinkKeyV| bare_link(k))
}

pub open spec fn with_links(n: NetworkV, s: Set<LinkKeyV>) -> NetworkV {
    NetworkV { nodes: n.nodes, links: n.links.union_prefer_right(bare_links(s)) }
}

proof fn lemma_add_links(n: NetworkV, ks: Seq<LinkKeyV>)
    requires
        ks.no_duplicates(),
        forall|i: int| 0 <= i < ks.len() ==> n.has_endpoint((#[trigger] ks[i]).0) && n.has_endpoint(ks[i].1),
        forall|i: int| 0 <= i < ks.len() ==> (#[trigger] ks[i]).0.0 != ks[i].1.0,
        forall|i: int| 0 <= i < ks.len() ==> ep_lt((#[trigger] ks[i]).0, ks[i].1),
        forall|i: int| 0 <= i < ks.len() ==> !n.links.dom().contains(#[trigger] ks[i]),
    ensures
        run(n, ks.map_values(|k: LinkKeyV| OpV::AddLink(k))) == Some(with_links(n, ks.to_set())),
    decreases ks.len(),
{
    let vs = ks.map_values(|k: LinkKeyV| OpV::AddLink(k));
    if ks.len() == 0 {
        assert(ks.to_set() =~= Set::<LinkKeyV>::empty());
        assert(with_links(n, ks.to_set()).links =~= n.links);
    } else {
        let p = ks.drop_last();
        let x = ks.last();
        lemma_set_last(ks);
        assert(vs.drop_last() =~= p.map_values(|k: LinkKeyV| OpV::AddLink(k)));
        assert forall|i: int| 0 <= i < p.len() implies n.has_endpoint((#[trigger] p[i]).0) && n.has_endpoint(p[i].1)
            && p[i].0.0 != p[i].1.0 && ep_lt(p[i].0, p[i].1) && !n.links.dom().contains(p[i]) by {
            assert(p[i] == ks[i]);
        }
        lemma_add_links(n, p);
        let m = with_links(n, p.to_set());
        assert(n.has_endpoint(x.0) && n.has_endpoint(x.1) && x.0.0 != x.1.0 && ep_lt(x.0, x.1));
        assert(!n.links.dom().contains(x));
        lemma_ep_asym(x.0, x.1);
        assert(vs.last() == OpV::AddLink(x));
        assert(!m.links.dom().contains(x));
        assert(m.links.insert(x, bare_link(x)) =~= with_links(n, ks.to_set()).links);
    }
}

/// The network after removing the links only the source has, the
/// interfaces in `e`, the nodes only the source has, then adding the nodes
/// only the target has and grafting on the interfaces only it has.
pub open spec fn grafted(f: NetworkV, t: NetworkV, e: Set<EndpointV>) -> NetworkV {
    let n1 = without_links(f, f.links.dom().difference(t.links.dom()));
    let n2 = strip_ifaces(n1, e);
    let n3 = without_nodes(n2, f.nodes.dom().difference(t.nodes.dom()));
    let n4 = with_nodes(n3, t, t.nodes.dom().difference(f.nodes.dom()));
    graft_ifaces(n4, iface_set(t).difference(iface_set(f)))
}

/// The interfaces a removal step may take out: only interfaces the target
/// lacks, and at least every such interface of a node the target keeps.
pub open spec fn removal_set_ok(f: NetworkV, t: NetworkV, e: Set<EndpointV>) -> bool {
    &&& forall|x: EndpointV| #[trigger] e.contains(x) ==> f.has_endpoint(x) && !t.has_endpoint(x)
    &&& forall|x: EndpointV|
        f.has_endpoint(x) && !t.has_endpoint(x) && #[trigger] t.nodes.dom().contains(x.0) ==> e.contains(x)
}

/// After the interface additions, the nodes are the target's.
proof fn lemma_grafted_nodes(f: NetworkV, t: NetworkV, e: Set<EndpointV>)
    requires
        f.valid(),
        t.valid(),
        differs_in_topology_only(f, t),
        removal_set_ok(f, t, e),
    ensures
        grafted(f, t, e).nodes == t.nodes,
        grafted(f, t, e).links == f.links.remove_keys(f.links.dom().difference(t.links.dom())),
{
    let ins = iface_set(t).difference(iface_set(f));
    let r = f.nodes.dom().difference(t.nodes.dom());
    let a = t.nodes.dom().difference(f.nodes.dom());
    let n1 = without_links(f, f.links.dom().difference(t.links.dom()));
    let n2 = strip_ifaces(n1, e);
    let n3 = without_nodes(n2, r);
    let n4 = with_nodes(n3, t, a);
    let g = graft_ifaces(n4, ins);
    assert forall|k: Seq<char>| #[trigger] g.nodes.dom().contains(k) <==> t.nodes.dom().contains(k) by {}
    assert forall|k: Seq<char>| t.nodes.dom().contains(k) implies g.nodes[k] == t.nodes[k] by {
        let tn = t.nodes[k];
        let gn = g.nodes[k];
        assert(tn.id == k && tn.valid());
        if f.nodes.dom().contains(k) {
            let fnode = f.nodes[k];
            assert(fnode.id == k && fnode.valid());
            assert(n4.nodes[k] == n2.nodes[k]);
            assert(fnode.metadata == tn.metadata);
            assert forall|nm: Seq<char>| #[trigger] gn.interfaces.dom().contains(nm) <==> tn.interfaces.dom().contains(nm) by {
                if fnode.interfaces.dom().contains(nm) && !tn.interfaces.dom().contains(nm) {
                    assert(f.has_endpoint((k, nm)));
                    assert(!t.has_endpoint((k, nm)));
                    assert(e.contains((k, nm)));
                }
                if e.contains((k, nm)) {
                    assert(!t.has_endpoint((k, nm)));
                }
                if tn.interfaces.dom().contains(nm) && !fnode.interfaces.dom().contains(nm) {
                    assert(ins.contains((k, nm)));
                }
            }
            assert forall|nm: Seq<char>| tn.interfaces.dom().contains(nm) implies gn.interfaces[nm] == tn.interfaces[nm] by {
                assert(t.has_endpoint((k, nm)));
                assert(tn.interfaces[nm].name == nm);
                if fnode.interfaces.dom().contains(nm) {
                    assert(f.has_endpoint((k, nm)));
                    assert(!ins.contains((k, nm)));
                    if e.contains((k, nm)) {
                        assert(!t.has_endpoint((k, nm)));
                    }
                    assert(fnode.interfaces[nm].name == nm);
                    assert(f.nodes[k].interfaces[nm].metadata == t.nodes[k].interfaces[nm].metadata);
                } else {
                    assert(!f.has_endpoint((k, nm)));
                    assert(ins.contains((k, nm)));
                    assert(t.nodes[k].interfaces[nm].metadata == Map::<Seq<char>, Seq<char>>::empty());
                }
            }
            assert(gn.interfaces =~= tn.interfaces);
        } else {
            assert(a.contains(k));
            assert(n4.nodes[k] == NodeV { id: k, metadata: tn.metadata, interfaces: Map::<Seq<char>, InterfaceV>::empty() });
            assert forall|nm: Seq<char>| #[trigger] gn.interfaces.dom().contains(nm) <==> tn.interfaces.dom().contains(nm) by {
                if tn.interfaces.dom().contains(nm) {
                    assert(t.has_endpoint((k, nm)));
                    assert(!f.has_endpoint((k, nm)));
                    assert(ins.contains((k, nm)));
                }
            }
            assert forall|nm: Seq<char>| tn.interfaces.dom().contains(nm) implies gn.interfaces[nm] == tn.interfaces[nm] by {
                assert(t.has_endpoint((k, nm)));
                assert(!f.has_endpoint((k, nm)));
                assert(ins.contains((k, nm)));
                assert(tn.interfaces[nm].name == nm);
                assert(t.nodes[k].interfaces[nm].metadata == Map::<Seq<char>, Seq<char>>::empty());
            }
            assert(gn.interfaces =~= tn.interfaces);
        }
    }
    assert(g.nodes =~= t.nodes);
}

/// The operations taking `f` to `t`: removals (links, the interfaces in
/// `e`, nodes), then additions (nodes with the target's metadata,
/// interfaces, links), each ascending.
pub open spec fn rebuild_ops(f: NetworkV, t: NetworkV, e: Set<EndpointV>) -> Seq<OpV> {
    sorted_keys(f.links.dom().difference(t.links.dom())).map_values(|k: LinkKeyV| OpV::RemoveLink(k))
        + sorted_eps(e).map_values(|x: EndpointV| OpV::RemoveIface(x))
        + sorted_strs(f.nodes.dom().difference(t.nodes.dom())).map_values(
        |k: Seq<char>| OpV::RemoveNode(k),
    ) + sorted_strs(t.nodes.dom().difference(f.nodes.dom())).map_values(
        |k: Seq<char>| OpV::AddNode(k, t.nodes[k].metadata),
    ) + sorted_eps(iface_set(t).difference(iface_set(f))).map_values(|x: EndpointV| OpV::AddIface(x))
        + sorted_keys(t.links.dom().difference(f.links.dom())).map_values(
        |k: LinkKeyV| OpV::AddLink(k),
    )
}

/// The removals and additions that take one network to another, with the
/// interfaces in `e` removed explicitly, rebuild the target strictly.
proof fn lemma_rebuild(from: &Network, to: &Network, e: Set<EndpointV>)
    requires
        from.wf(),
        to.wf(),
        differs_in_topology_only(from@, to@),
        removal_set_ok(from@, to@, e),
    ensures
        run(from@, rebuild_ops(from@, to@, e)) == Some(to@),
{
    let f = from@;
    let t = to@;
    from.lemma_metadata_finite();
    to.lemma_metadata_finite();
    lemma_sorted_enum_exists_for_ifaces(from);
    lemma_sorted_enum_exists_for_ifaces(to);
    lemma_key_strict();
    lemma_str_strict();
    lemma_ep_strict();
    let d1 = f.links.dom().difference(t.links.dom());
    let r = f.nodes.dom().difference(t.nodes.dom());
    let a = t.nodes.dom().difference(f.nodes.dom());
    let ins = iface_set(t).difference(iface_set(f));
    let l = t.links.dom().difference(f.links.dom());
    vstd::set_lib::lemma_set_subset_finite(f.links.dom(), d1);
    assert(e.subset_of(iface_set(f)));
    vstd::set_lib::lemma_set_subset_finite(iface_set(f), e);
    vstd::set_lib::lemma_set_subset_finite(f.nodes.dom(), r);
    vstd::set_lib::lemma_set_subset_finite(t.nodes.dom(), a);
    vstd::set_lib::lemma_set_subset_finite(iface_set(t), ins);
    vstd::set_lib::lemma_set_subset_finite(t.links.dom(), l);
    let s1 = sorted_keys(d1);
    let s2 = sorted_eps(e);
    let s3 = sorted_strs(r);
    let s4 = sorted_strs(a);
    let s5 = sorted_eps(ins);
    let s6 = sorted_keys(l);
    lemma_sorted_enum_exists(d1, key_order_fn());
    lemma_sorted_enum_exists(e, ep_order_fn());
    lemma_sorted_enum_exists(r, str_order_fn());
    lemma_sorted_enum_exists(a, str_order_fn());
    lemma_sorted_enum_exists(ins, ep_order_fn());
    lemma_sorted_enum_exists(l, key_order_fn());
    lemma_sorted_no_dups(s1, key_order_fn());
    lemma_sorted_no_dups(s2, ep_order_fn());
    lemma_sorted_no_dups(s3, str_order_fn());
    lemma_sorted_no_dups(s4, str_order_fn());
    lemma_sorted_no_dups(s5, ep_order_fn());
    lemma_sorted_no_dups(s6, key_order_fn());
    lemma_enum_to_set(s1, d1);
    lemma_enum_to_set(s2, e);
    lemma_enum_to_set(s3, r);
    lemma_enum_to_set(s4, a);
    lemma_enum_to_set(s5, ins);
    lemma_enum_to_set(s6, l);
    let v1 = s1.map_values(|k: LinkKeyV| OpV::RemoveLink(k));
    let v2 = s2.map_values(|x: EndpointV| OpV::RemoveIface(x));
    let v3 = s3.map_values(|k: Seq<char>| OpV::RemoveNode(k));
    let v4 = s4.map_values(|k: Seq<char>| OpV::AddNode(k, t.nodes[k].metadata));
    let v5 = s5.map_values(|x: EndpointV| OpV::AddIface(x));
    let v6 = s6.map_values(|k: LinkKeyV| OpV::AddLink(k));
    assert(rebuild_ops(f, t, e) == v1 + v2 + v3 + v4 + v5 + v6);
    // links removed
    assert forall|i: int| 0 <= i < s1.len() implies f.links.dom().contains(#[trigger] s1[i]) by {
        assert(s1.contains(s1[i]));
        assert(d1.contains(s1[i]));
    }
    lemma_remove_links(f, s1);
    let n1 = without_links(f, d1);
    // interfaces removed
    assert forall|i: int| 0 <= i < s2.len() implies n1.has_endpoint(#[trigger] s2[i]) && !n1.iface_linked(s2[i]) by {
        assert(s2.contains(s2[i]));
        assert(e.contains(s2[i]));
        let x = s2[i];
        if n1.iface_linked(x) {
            let lk = choose|lk: LinkKeyV| #[trigger] n1.links.dom().contains(lk) && (lk.0 == x || lk.1 == x);
            assert(t.links.dom().contains(lk));
            assert(t.has_endpoint(lk.0) && t.has_endpoint(lk.1));
            assert(t.has_endpoint(x));
        }
    }
    lemma_remove_ifaces(n1, s2);
    let n2 = strip_ifaces(n1, e);
    // nodes removed
    assert forall|i: int| 0 <= i < s3.len() implies n2.nodes.dom().contains(#[trigger] s3[i]) && !n2.node_linked(s3[i]) by {
        assert(s3.contains(s3[i]));
        assert(r.contains(s3[i]));
        let x = s3[i];
        if n2.node_linked(x) {
            let lk = choose|lk: LinkKeyV| #[trigger] n2.links.dom().contains(lk) && (lk.0.0 == x || lk.1.0 == x);
            assert(t.links.dom().contains(lk));
            assert(t.has_endpoint(lk.0) && t.has_endpoint(lk.1));
        }
    }
    lemma_remove_nodes(n2, s3);
    let n3 = without_nodes(n2, r);
    // nodes added
    assert forall|i: int| 0 <= i < s4.len() implies valid_id(#[trigger] s4[i]) && !n3.nodes.dom().contains(s4[i]) by {
        assert(s4.contains(s4[i]));
        assert(a.contains(s4[i]));
    }
    lemma_add_nodes(n3, t, s4);
    let n4 = with_nodes(n3, t, a);
    // interfaces added
    assert forall|i: int| 0 <= i < s5.len() implies valid_id((#[trigger] s5[i]).1) && n4.nodes.dom().contains(s5[i].0)
        && !n4.has_endpoint(s5[i]) by {
        assert(s5.contains(s5[i]));
        assert(ins.contains(s5[i]));
        let x = s5[i];
        assert(t.has_endpoint(x));
        assert(t.nodes[x.0].valid());
        if f.nodes.dom().contains(x.0) {
            assert(!f.has_endpoint(x));
            assert(n4.nodes[x.0] == n2.nodes[x.0]);
        }
    }
    lemma_add_ifaces(n4, s5);
    let n5 = graft_ifaces(n4, ins);
    lemma_grafted_nodes(f, t, e);
    // links added
    assert forall|i: int| 0 <= i < s6.len() implies n5.has_endpoint((#[trigger] s6[i]).0) && n5.has_endpoint(s6[i].1)
        && s6[i].0.0 != s6[i].1.0 && ep_lt(s6[i].0, s6[i].1) && !n5.links.dom().contains(s6[i]) by {
        assert(s6.contains(s6[i]));
        assert(l.contains(s6[i]));
        assert(t.links.dom().contains(s6[i]));
    }
    lemma_add_links(n5, s6);
    let n6 = with_links(n5, l);
    assert forall|k: LinkKeyV| t.links.dom().contains(k) implies n6.links[k] == t.links[k] by {
        assert(t.links[k].a == k.0 && t.links[k].b == k.1);
        if f.links.dom().contains(k) {
            assert(f.links[k].a == k.0 && f.links[k].b == k.1);
            assert(f.links[k].metadata == t.links[k].metadata);
        } else {
            assert(l.contains(k));
            assert(t.links[k].metadata == Map::<Seq<char>, Seq<char>>::empty());
        }
    }
    assert(n6.links =~= t.links);
    assert(n6 == t);
    lemma_run_append(f, v1, v2);
    lemma_run_append(f, v1 + v2, v3);
    lemma_run_append(f, v1 + v2 + v3, v4);
    lemma_run_append(f, v1 + v2 + v3 + v4, v5);
    lemma_run_append(f, v1 + v2 + v3 + v4 + v5, v6);
}

/// Applying the operations derived from the diff of two networks to the
/// first rebuilds the second exactly, whenever the two differ only in
/// topology (metadata has no operation of its own).
pub proof fn law_diff_operations_rebuild_target(from: &Network, to: &Network, ops: Seq<Operation>)
    requires
        from.wf(),
        to.wf(),
        differs_in_topology_only(from@, to@),
        op_views(ops) == diff_ops(from@, to@),
    ensures
        ops_result(from@, ops) == Some(to@),
{
    let e = iface_set(from@).difference(iface_set(to@));
    assert(diff_ops(from@, to@) == rebuild_ops(from@, to@, e));
    lemma_rebuild(from, to, e);
    lemma_ops_result_run(from@, ops);
}

/// Strict success means tolerant application gives the same network.
proof fn lemma_run_tol(n: NetworkV, vs: Seq<OpV>)
    requires
        run(n, vs) is Some,
    ensures
        tol_ops(Some(n), vs) == run(n, vs),
    decreases vs.len(),
{
    if vs.len() > 0 {
        lemma_run_tol(n, vs.drop_last());
    }
}

/// The ascending enumeration of an empty set is empty.
proof fn lemma_sorted_empty<A>(s: Seq<A>)
    requires
        enumerates(s, Set::<A>::empty()),
    ensures
        s.len() == 0,
{
    if s.len() > 0 {
        assert(s.contains(s[0]));
        assert(Set::<A>::empty().contains(s[0]));
    }
}

/// A side with no changes has no operations.
proof fn lemma_side_ops_unchanged(base: &Network)
    requires
        base.wf(),
    ensures
        side_ops(base@, base@) == Seq::<OpV>::empty(),
{
    let b = base@;
    base.lemma_metadata_finite();
    lemma_key_strict();
    lemma_str_strict();
    lemma_ep_strict();
    let ek = Set::<LinkKeyV>::empty();
    let ee = Set::<EndpointV>::empty();
    let es = Set::<Seq<char>>::empty();
    assert(b.links.dom().difference(b.links.dom()) =~= ek);
    assert(b.nodes.dom().difference(b.nodes.dom()) =~= es);
    assert(iface_set(b).difference(iface_set(b)) =~= ee);
    assert(removed_ifaces(b, b) =~= ee);
    lemma_sorted_enum_exists(ek, key_order_fn());
    lemma_sorted_enum_exists(ee, ep_order_fn());
    lemma_sorted_enum_exists(es, str_order_fn());
    lemma_sorted_empty(sorted_keys(ek));
    lemma_sorted_empty(sorted_eps(ee));
    lemma_sorted_empty(sorted_strs(es));
    assert(side_ops(b, b) =~= Seq::<OpV>::empty());
}

/// Merging a change against an unchanged other side gives the change,
/// whichever side it is on: no conflict, and the merged network is the
/// changed side, whenever the change is topological.
pub proof fn law_merge_with_unchanged_side(base: &Network, side: &Network)
    requires
        base.wf(),
        side.wf(),
        differs_in_topology_only(base@, side@),
    ensures
        !has_conflict(base@, side@, base@),
        merged(base@, side@, base@) == Some(side@),
        !has_conflict(base@, base@, side@),
        merged(base@, base@, side@) == Some(side@),
{
    let b = base@;
    let t = side@;
    let e = removed_ifaces(b, t);
    assert(side_ops(b, t) == rebuild_ops(b, t, e));
    lemma_rebuild(base, side, e);
    lemma_run_tol(b, side_ops(b, t));
    lemma_side_ops_unchanged(base);
    assert(tol_ops(Some(t), Seq::<OpV>::empty()) == Some(t));
    assert(tol_ops(Some(b), Seq::<OpV>::empty()) == Some(b));
    assert(!has_conflict(b, t, b)) by {
        assert forall|k: Seq<char>| !#[trigger] node_conflict(b, t, b, k) by {}
        assert forall|x: EndpointV| !#[trigger] iface_conflict(b, t, b, x) by {}
        assert forall|k: LinkKeyV| !#[trigger] link_conflict(b, t, b, k) by {}
    }
    assert(!has_conflict(b, b, t)) by {
        assert forall|k: Seq<char>| !#[trigger] node_conflict(b, b, t, k) by {}
        assert forall|x: EndpointV| !#[trigger] iface_conflict(b, b, t, x) by {}
        assert forall|k: LinkKeyV| !#[trigger] link_conflict(b, b, t, k) by {}
    }
}

/// No link of `n` touches a node of `x`.
pub open spec fn unlinked_nodes(n: NetworkV, x: Set<Seq<char>>) -> bool {
    forall|k: LinkKeyV| #[trigger] n.links.dom().contains(k) ==> !x.contains(k.0.0) && !x.contains(k.1.0)
}

/// The operations of a side that only removed some unlinked nodes.
proof fn lemma_side_ops_node_removal(base: &Network, x: Set<Seq<char>>)
    requires
        base.wf(),
        x.subset_of(base@.nodes.dom()),
        unlinked_nodes(base@, x),
    ensures
        side_ops(base@, without_nodes(base@, x)) == sorted_strs(x).map_values(|k: Seq<char>| OpV::RemoveNode(k)),
{
    let b = base@;
    let o = without_nodes(b, x);
    base.lemma_metadata_finite();
    lemma_key_strict();
    lemma_str_strict();
    lemma_ep_strict();
    let ek = Set::<LinkKeyV>::empty();
    let ee = Set::<EndpointV>::empty();
    let es = Set::<Seq<char>>::empty();
    assert(b.links.dom().difference(o.links.dom()) =~= ek);
    assert(o.links.dom().difference(b.links.dom()) =~= ek);
    assert(b.nodes.dom().difference(o.nodes.dom()) =~= x);
    assert(o.nodes.dom().difference(b.nodes.dom()) =~= es);
    assert(iface_set(o).difference(iface_set(b)) =~= ee);
    assert(removed_ifaces(b, o) =~= ee);
    lemma_sorted_enum_exists(ek, key_order_fn());
    lemma_sorted_enum_exists(ee, ep_order_fn());
    lemma_sorted_enum_exists(es, str_order_fn());
    lemma_sorted_empty(sorted_keys(ek));
    lemma_sorted_empty(sorted_eps(ee));
    lemma_sorted_empty(sorted_strs(es));
    assert(side_ops(b, o) =~= sorted_strs(x).map_values(|k: Seq<char>| OpV::RemoveNode(k)));
}

/// Removing unlinked nodes one side after another.
proof fn lemma_removals_in_turn(base: &Network, x: Set<Seq<char>>, y: Set<Seq<char>>)
    requires
        base.wf(),
        x.subset_of(base@.nodes.dom()),
        y.subset_of(base@.nodes.dom()),
        x.disjoint(y),
        unlinked_nodes(base@, x),
        unlinked_nodes(base@, y),
    ensures
        tol_ops(tol_ops(Some(base@), side_ops(base@, without_nodes(base@, x))), side_ops(base@, without_nodes(base@, y)))
            == Some(without_nodes(base@, x.union(y))),
{
    let b = base@;
    base.lemma_metadata_finite();
    lemma_str_strict();
    vstd::set_lib::lemma_set_subset_finite(b.nodes.dom(), x);
    vstd::set_lib::lemma_set_subset_finite(b.nodes.dom(), y);
    lemma_sorted_enum_exists(x, str_order_fn());
    lemma_sorted_enum_exists(y, str_order_fn());
    let sx = sorted_strs(x);
    let sy = sorted_strs(y);
    lemma_sorted_no_dups(sx, str_order_fn());
    lemma_sorted_no_dups(sy, str_order_fn());
    lemma_enum_to_set(sx, x);
    lemma_enum_to_set(sy, y);
    lemma_side_ops_node_removal(base, x);
    lemma_side_ops_node_removal(base, y);
    assert forall|i: int| 0 <= i < sx.len() implies b.nodes.dom().contains(#[trigger] sx[i]) && !b.node_linked(sx[i]) by {
        assert(sx.contains(sx[i]));
        assert(x.contains(sx[i]));
    }
    lemma_remove_nodes(b, sx);
    let bx = without_nodes(b, x);
    assert forall|i: int| 0 <= i < sy.len() implies bx.nodes.dom().contains(#[trigger] sy[i]) && !bx.node_linked(sy[i]) by {
        assert(sy.contains(sy[i]));
        assert(y.contains(sy[i]));
    }
    lemma_remove_nodes(bx, sy);
    lemma_run_tol(b, sx.map_values(|k: Seq<char>| OpV::RemoveNode(k)));
    lemma_run_tol(bx, sy.map_values(|k: Seq<char>| OpV::RemoveNode(k)));
    assert(without_nodes(bx, y).nodes =~= without_nodes(b, x.union(y)).nodes);
}

/// Two sides that remove disjoint sets of unlinked nodes merge without
/// conflict, to the base without both sets, in either order.
pub proof fn law_merge_disjoint_node_removals(base: &Network, x: Set<Seq<char>>, y: Set<Seq<char>>)
    requires
        base.wf(),
        x.subset_of(base@.nodes.dom()),
        y.subset_of(base@.nodes.dom()),
        x.disjoint(y),
        unlinked_nodes(base@, x),
        unlinked_nodes(base@, y),
    ensures
        !has_conflict(base@, without_nodes(base@, x), without_nodes(base@, y)),
        merged(base@, without_nodes(base@, x), without_nodes(base@, y)) == Some(without_nodes(base@, x.union(y))),
        merged(base@, without_nodes(base@, y), without_nodes(base@, x)) == Some(without_nodes(base@, x.union(y))),
{
    let b = base@;
    let o = without_nodes(b, x);
    let t = without_nodes(b, y);
    lemma_removals_in_turn(base, x, y);
    lemma_removals_in_turn(base, y, x);
    assert(y.union(x) =~= x.union(y));
    assert(!has_conflict(b, o, t)) by {
        assert forall|k: Seq<char>| !#[trigger] node_conflict(b, o, t, k) by {}
        assert forall|e: EndpointV| !#[trigger] iface_conflict(b, o, t, e) by {}
        assert forall|k: LinkKeyV| !#[trigger] link_conflict(b, o, t, k) by {}
    }
}

/// The operation that carries out a plan action towards `t`: a created
/// node takes `t`'s metadata for it.
pub open spec fn action_op(a: ActionV, t: NetworkV) -> OpV {
    match a {
        ActionV::CreateNode(k) => OpV::AddNode(k, t.nodes[k].metadata),
        ActionV::RemoveNode(k) => OpV::RemoveNode(k),
        ActionV::CreateIface(e) => OpV::AddIface(e),
        ActionV::RemoveIface(e) => OpV::RemoveIface(e),
        ActionV::CreateLink(k) => OpV::AddLink(k),
        ActionV::RemoveLink(k) => OpV::RemoveLink(k),
    }
}

/// Carrying out the plan from `current` to `target`, action by action and
/// each strictly, rebuilds `target` (when the two differ in topology only,
/// so that no metadata edit is left out of the plan).
pub proof fn law_plan_rebuilds_target(current: &Network, target: &Network)
    requires
        current.wf(),
        target.wf(),
        differs_in_topology_only(current@, target@),
    ensures
        run(current@, plan_actions(current@, target@).map_values(|a: ActionV| action_op(a, target@)))
            == Some(target@),
{
    let c = current@;
    let t = target@;
    let e = removed_ifaces(c, t);
    let f = |a: ActionV| action_op(a, t);
    let s1 = sorted_keys(c.links.dom().difference(t.links.dom()));
    let s2 = sorted_eps(e);
    let s3 = sorted_strs(c.nodes.dom().difference(t.nodes.dom()));
    let s4 = sorted_strs(t.nodes.dom().difference(c.nodes.dom()));
    let s5 = sorted_eps(iface_set(t).difference(iface_set(c)));
    let s6 = sorted_keys(t.links.dom().difference(c.links.dom()));
    let a1 = s1.map_values(|k: LinkKeyV| ActionV::RemoveLink(k));
    let a2 = s2.map_values(|x: EndpointV| ActionV::RemoveIface(x));
    let a3 = s3.map_values(|k: Seq<char>| ActionV::RemoveNode(k));
    let a4 = s4.map_values(|k: Seq<char>| ActionV::CreateNode(k));
    let a5 = s5.map_values(|x: EndpointV| ActionV::CreateIface(x));
    let a6 = s6.map_values(|k: LinkKeyV| ActionV::CreateLink(k));
    let o1 = s1.map_values(|k: LinkKeyV| OpV::RemoveLink(k));
    let o2 = s2.map_values(|x: EndpointV| OpV::RemoveIface(x));
    let o3 = s3.map_values(|k: Seq<char>| OpV::RemoveNode(k));
    let o4 = s4.map_values(|k: Seq<char>| OpV::AddNode(k, t.nodes[k].metadata));
    let o5 = s5.map_values(|x: EndpointV| OpV::AddIface(x));
    let o6 = s6.map_values(|k: LinkKeyV| OpV::AddLink(k));
    assert(plan_actions(c, t) == a1 + a2 + a3 + a4 + a5 + a6);
    assert(side_ops(c, t) == o1 + o2 + o3 + o4 + o5 + o6);
    assert(a1.map_values(f) =~= o1);
    assert(a2.map_values(f) =~= o2);
    assert(a3.map_values(f) =~= o3);
    assert(a4.map_values(f) =~= o4);
    assert(a5.map_values(f) =~= o5);
    assert(a6.map_values(f) =~= o6);
    lemma_map_concat(a1, a2, f);
    lemma_map_concat(a1 + a2, a3, f);
    lemma_map_concat(a1 + a2 + a3, a4, f);
    lemma_map_concat(a1 + a2 + a3 + a4, a5, f);
    lemma_map_concat(a1 + a2 + a3 + a4 + a5, a6, f);
    assert(plan_actions(c, t).map_values(f) == side_ops(c, t));
    assert(side_ops(c, t) == rebuild_ops(c, t, e));
    lemma_rebuild(current, target, e);
}

/// Mapping over joined sequences maps each part.
proof fn lemma_map_concat<A, B>(x: Seq<A>, y: Seq<A>, f: spec_fn(A) -> B)
    ensures
        (x + y).map_values(f) == x.map_values(f) + y.map_values(f),
{
    assert((x + y).map_values(f) =~= x.map_values(f) + y.map_values(f));
}

/// Operations each of which is already in effect, and rejected as a
/// strict step, leave a network unchanged when applied tolerantly.
proof fn lemma_tol_all_already(n: NetworkV, ops: Seq<OpV>)
    requires
        forall|i: int| 0 <= i < ops.len() ==> in_effect(n, #[trigger] ops[i]),
    ensures
        tol_ops(Some(n), ops) == Some(n),
    decreases ops.len(),
{
    if ops.len() > 0 {
        assert forall|i: int| 0 <= i < ops.drop_last().len() implies in_effect(n, #[trigger] ops.drop_last()[i]) by {
            assert(ops.drop_last()[i] == ops[i]);
        }
        lemma_tol_all_already(n, ops.drop_last());
        assert(in_effect(n, ops[ops.len() - 1]));
    }
}

/// The operation is already in effect in `n` and rejected as a strict step.
pub open spec fn in_effect(n: NetworkV, v: OpV) -> bool {
    opv_result(n, v) is None && already(n, v)
}

pub open spec fn link_op(add: bool, k: LinkKeyV) -> OpV {
    if add {
        OpV::AddLink(k)
    } else {
        OpV::RemoveLink(k)
    }
}

pub open spec fn node_op(add: bool, t: NetworkV, k: Seq<char>) -> OpV {
    if add {
        OpV::AddNode(k, t.nodes[k].metadata)
    } else {
        OpV::RemoveNode(k)
    }
}

pub open spec fn iface_op(add: bool, e: EndpointV) -> OpV {
    if add {
        OpV::AddIface(e)
    } else {
        OpV::RemoveIface(e)
    }
}

proof fn lemma_in_effect_concat(n: NetworkV, x: Seq<OpV>, y: Seq<OpV>)
    requires
        forall|i: int| 0 <= i < x.len() ==> in_effect(n, #[trigger] x[i]),
        forall|i: int| 0 <= i < y.len() ==> in_effect(n, #[trigger] y[i]),
    ensures
        forall|i: int| 0 <= i < (x + y).len() ==> in_effect(n, #[trigger] (x + y)[i]),
{
    assert forall|i: int| 0 <= i < (x + y).len() implies in_effect(n, #[trigger] (x + y)[i]) by {
        if i < x.len() {
            assert((x + y)[i] == x[i]);
        } else {
            assert((x + y)[i] == y[i - x.len()]);
        }
    }
}

/// A valid network's link keys are normalized.
proof fn lemma_key_normal(n: NetworkV, k: LinkKeyV)
    requires
        n.valid(),
        n.links.dom().contains(k),
    ensures
        norm_key(k.0, k.1) == k,
{
    lemma_ep_strict();
    assert(ep_lt(k.0, k.1));
    if ep_lt(k.1, k.0) {
        assert((ep_order_fn())(k.0, k.1) && (ep_order_fn())(k.1, k.0));
    }
}

proof fn lemma_links_in_effect(b: NetworkV, t: NetworkV, s: Set<LinkKeyV>, add: bool)
    requires
        b.valid(),
        t.valid(),
        enumerates(sorted_keys(s), s),
        add ==> s == t.links.dom().difference(b.links.dom()),
        !add ==> s == b.links.dom().difference(t.links.dom()),
    ensures
        forall|i: int| 0 <= i < sorted_keys(s).len() ==> in_effect(t, link_op(add, #[trigger] sorted_keys(s)[i])),
{
    assert forall|i: int| 0 <= i < sorted_keys(s).len() implies in_effect(t, link_op(add, #[trigger] sorted_keys(s)[i])) by {
        let k = sorted_keys(s)[i];
        assert(sorted_keys(s).contains(k));
        assert(s.contains(k));
        if add {
            lemma_key_normal(t, k);
        } else {
            lemma_key_normal(b, k);
        }
    }
}

proof fn lemma_nodes_in_effect(b: NetworkV, t: NetworkV, s: Set<Seq<char>>, add: bool)
    requires
        enumerates(sorted_strs(s), s),
        add ==> s == t.nodes.dom().difference(b.nodes.dom()),
        !add ==> s == b.nodes.dom().difference(t.nodes.dom()),
    ensures
        forall|i: int| 0 <= i < sorted_strs(s).len() ==> in_effect(t, node_op(add, t, #[trigger] sorted_strs(s)[i])),
{
    assert forall|i: int| 0 <= i < sorted_strs(s).len() implies in_effect(t, node_op(add, t, #[trigger] sorted_strs(s)[i])) by {
        let k = sorted_strs(s)[i];
        assert(sorted_strs(s).contains(k));
        assert(s.contains(k));
    }
}

proof fn lemma_ifaces_in_effect(b: NetworkV, t: NetworkV, s: Set<EndpointV>, add: bool)
    requires
        differs_in_topology_only(b, t),
        enumerates(sorted_eps(s), s),
        add ==> s == iface_set(t).difference(iface_set(b)),
        !add ==> s == removed_ifaces(b, t),
    ensures
        forall|i: int| 0 <= i < sorted_eps(s).len() ==> in_effect(t, iface_op(add, #[trigger] sorted_eps(s)[i])),
{
    assert forall|i: int| 0 <= i < sorted_eps(s).len() implies in_effect(t, iface_op(add, #[trigger] sorted_eps(s)[i])) by {
        let e = sorted_eps(s)[i];
        assert(sorted_eps(s).contains(e));
        assert(s.contains(e));
        if add {
            assert(t.has_endpoint(e) && !b.has_endpoint(e));
            assert(t.nodes[e.0].interfaces[e.1].metadata == Map::<Seq<char>, Seq<char>>::empty());
            assert(t.nodes[e.0].interfaces[e.1].metadata.dom() =~= Set::<Seq<char>>::empty());
        }
    }
}

/// Two sides that made the same changes to the base merge without
/// conflict, into that side.
pub proof fn law_identical_sides_merge(base: &Network, side: &Network)
    requires
        base.wf(),
        side.wf(),
        differs_in_topology_only(base@, side@),
    ensures
        !has_conflict(base@, side@, side@),
        merged(base@, side@, side@) == Some(side@),
{
    let b = base@;
    let t = side@;
    law_merge_with_unchanged_side(base, side);
    assert(tol_ops(Some(b), side_ops(b, t)) == Some(t)) by {
        lemma_side_ops_unchanged(base);
        assert(tol_ops(Some(t), Seq::<OpV>::empty()) == Some(t));
    }
    crate::merge::law_conflicts_need_different_content(b, t, t);
    base.lemma_valid();
    side.lemma_valid();
    base.lemma_metadata_finite();
    side.lemma_metadata_finite();
    lemma_sorted_enum_exists_for_ifaces(base);
    lemma_sorted_enum_exists_for_ifaces(side);
    lemma_str_strict();
    lemma_key_strict();
    lemma_ep_strict();
    let s1 = b.links.dom().difference(t.links.dom());
    let s2 = removed_ifaces(b, t);
    let s3 = b.nodes.dom().difference(t.nodes.dom());
    let s4 = t.nodes.dom().difference(b.nodes.dom());
    let s5 = iface_set(t).difference(iface_set(b));
    let s6 = t.links.dom().difference(b.links.dom());
    vstd::set_lib::lemma_set_subset_finite(b.links.dom(), s1);
    vstd::set_lib::lemma_set_subset_finite(iface_set(b), s2);
    vstd::set_lib::lemma_set_subset_finite(b.nodes.dom(), s3);
    vstd::set_lib::lemma_set_subset_finite(t.nodes.dom(), s4);
    vstd::set_lib::lemma_set_subset_finite(iface_set(t), s5);
    vstd::set_lib::lemma_set_subset_finite(t.links.dom(), s6);
    lemma_sorted_enum_exists(s1, key_order_fn());
    lemma_sorted_enum_exists(s2, ep_order_fn());
    lemma_sorted_enum_exists(s3, str_order_fn());
    lemma_sorted_enum_exists(s4, str_order_fn());
    lemma_sorted_enum_exists(s5, ep_order_fn());
    lemma_sorted_enum_exists(s6, key_order_fn());
    lemma_links_in_effect(b, t, s1, false);
    lemma_ifaces_in_effect(b, t, s2, false);
    lemma_nodes_in_effect(b, t, s3, false);
    lemma_nodes_in_effect(b, t, s4, true);
    lemma_ifaces_in_effect(b, t, s5, true);
    lemma_links_in_effect(b, t, s6, true);
    let o1 = sorted_keys(s1).map_values(|k: LinkKeyV| OpV::RemoveLink(k));
    let o2 = sorted_eps(s2).map_values(|e: EndpointV| OpV::RemoveIface(e));
    let o3 = sorted_strs(s3).map_values(|k: Seq<char>| OpV::RemoveNode(k));
    let o4 = sorted_strs(s4).map_values(|k: Seq<char>| OpV::AddNode(k, t.nodes[k].metadata));
    let o5 = sorted_eps(s5).map_values(|e: EndpointV| OpV::AddIface(e));
    let o6 = sorted_keys(s6).map_values(|k: LinkKeyV| OpV::AddLink(k));
    assert forall|i: int| 0 <= i < o1.len() implies in_effect(t, #[trigger] o1[i]) by {
        assert(o1[i] == link_op(false, sorted_keys(s1)[i]));
    }
    assert forall|i: int| 0 <= i < o2.len() implies in_effect(t, #[trigger] o2[i]) by {
        assert(o2[i] == iface_op(false, sorted_eps(s2)[i]));
    }
    assert forall|i: int| 0 <= i < o3.len() implies in_effect(t, #[trigger] o3[i]) by {
        assert(o3[i] == node_op(false, t, sorted_strs(s3)[i]));
    }
    assert forall|i: int| 0 <= i < o4.len() implies in_effect(t, #[trigger] o4[i]) by {
        assert(o4[i] == node_op(true, t, sorted_strs(s4)[i]));
    }
    assert forall|i: int| 0 <= i < o5.len() implies in_effect(t, #[trigger] o5[i]) by {
        assert(o5[i] == iface_op(true, sorted_eps(s5)[i]));
    }
    assert forall|i: int| 0 <= i < o6.len() implies in_effect(t, #[trigger] o6[i]) by {
        assert(o6[i] == link_op(true, sorted_keys(s6)[i]));
    }
    let ops = side_ops(b, t);
    assert(ops =~= o1 + o2 + o3 + o4 + o5 + o6);
    lemma_in_effect_concat(t, o1, o2);
    lemma_in_effect_concat(t, o1 + o2, o3);
    lemma_in_effect_concat(t, o1 + o2 + o3, o4);
    lemma_in_effect_concat(t, o1 + o2 + o3 + o4, o5);
    lemma_in_effect_concat(t, o1 + o2 + o3 + o4 + o5, o6);
    lemma_tol_all_already(t, ops);
}
} // verus!
