//! Semantic diff between networks: added and removed nodes, interfaces and
//! links, each in ascending order. Never a byte or text diff.
use vstd::prelude::*;
use crate::text::{group_str_order, str_lt};
use crate::seqs::{
    sorted_by, enumerates, sorted_enum, strict_order, total, lemma_sorted_enum, lemma_take_filter,
    lemma_filter_sorted_enum, lemma_sorted_enum_exists, lemma_take_contains,
};
use crate::canonical::{str_order_fn, key_order_fn, sorted_strs, sorted_keys, lemma_str_strict, lemma_key_strict};
use crate::model::{Network, NetworkV, EndpointV, LinkKeyV, Endpoint, ep_lt, pair_views};

verus! {

broadcast use group_str_order;

/// The endpoint order as a relation.
pub open spec fn ep_order_fn() -> spec_fn(EndpointV, EndpointV) -> bool {
    |a: EndpointV, b: EndpointV| ep_lt(a, b)
}

/// A finite set of endpoints in ascending order.
pub open spec fn sorted_eps(d: Set<EndpointV>) -> Seq<EndpointV> {
    sorted_enum(d, ep_order_fn())
}

/// The interfaces of a network, as `(node, name)` endpoints.
pub open spec fn iface_set(n: NetworkV) -> Set<EndpointV> {
    Set::new(|e: EndpointV| n.has_endpoint(e))
}

/// The views of a vector of strings.
pub open spec fn str_views(v: Seq<String>) -> Seq<Seq<char>> {
    v.map_values(|s: String| s@)
}

/// The views of a vector of link keys.
pub open spec fn key_views(v: Seq<(Endpoint, Endpoint)>) -> Seq<LinkKeyV> {
    v.map_values(|k: (Endpoint, Endpoint)| (k.0@, k.1@))
}

pub(crate) proof fn lemma_ep_strict()
    ensures
        strict_order(ep_order_fn()),
        total(ep_order_fn()),
{
}

/// Semantic difference from network `from` to network `to`.
#[derive(Debug, Clone, Default, PartialEq, Eq)]
pub struct Diff {
    /// Nodes present in `to` but not in `from`, sorted.
    pub added_nodes: Vec<String>,
    /// Nodes present in `from` but not in `to`, sorted.
    pub removed_nodes: Vec<String>,
    /// Interfaces `(node, name)` present in `to` but not in `from`, sorted.
    pub added_interfaces: Vec<(String, String)>,
    /// Interfaces `(node, name)` present in `from` but not in `to`, sorted.
    pub removed_interfaces: Vec<(String, String)>,
    /// Links present in `to` but not in `from`, sorted.
    pub added_links: Vec<(Endpoint, Endpoint)>,
    /// Links present in `from` but not in `to`, sorted.
    pub removed_links: Vec<(Endpoint, Endpoint)>,
}

impl Diff {
    /// No change at all.
    pub fn is_empty(&self) -> (r: bool)
        ensures
            r == (self.added_nodes@.len() == 0 && self.removed_nodes@.len() == 0
                && self.added_interfaces@.len() == 0 && self.removed_interfaces@.len() == 0
                && self.added_links@.len() == 0 && self.removed_links@.len() == 0),
    {
        self.added_nodes.len() == 0 && self.removed_nodes.len() == 0
            && self.added_interfaces.len() == 0 && self.removed_interfaces.len() == 0
            && self.added_links.len() == 0 && self.removed_links.len() == 0
    }
}

/// The ids of the nodes of `a` that `b` lacks, ascending.
pub(crate) fn missing_nodes(a: &Network, b: &Network) -> (r: Vec<String>)
    requires
        a.wf(),
        b.wf(),
    ensures
        str_views(r@) == sorted_strs(a@.nodes.dom().difference(b@.nodes.dom())),
{
    let ghost p = |k: Seq<char>| !b@.nodes.dom().contains(k);
    proof {
        a.lemma_orders();
    }
    let n = a.node_count();
    let mut out: Vec<String> = Vec::new();
    let mut i: usize = 0;
    while i < n
        invariant
            a.wf(),
            b.wf(),
            n == a.node_ids().len(),
            i <= n,
            str_views(out@) == a.node_ids().take(i as int).filter(p),
            p == (|k: Seq<char>| !b@.nodes.dom().contains(k)),
        decreases n - i,
    {
        let node = a.node_at(i);
        let id = node.id_ref();
        proof {
            lemma_take_filter(a.node_ids(), i as int, p);
        }
        if b.node(id.as_str()).is_none() {
            let ghost before = out@;
            out.push(id.clone());
            proof {
                assert(str_views(out@) =~= str_views(before).push(id@));
            }
        }
        i = i + 1;
    }
    proof {
        assert(a.node_ids().take(n as int) =~= a.node_ids());
        lemma_str_strict();
        assert(enumerates(a.node_ids(), a@.nodes.dom())) by {
            assert forall|x: Seq<char>| #[trigger] a@.nodes.dom().contains(x) <==> a.node_ids().contains(x) by {
                if a.node_ids().contains(x) {
                    let j = choose|j: int| 0 <= j < a.node_ids().len() && a.node_ids()[j] == x;
                    assert(a@.nodes.dom().contains(a.node_ids()[j]));
                }
            }
        }
        lemma_filter_sorted_enum(a.node_ids(), a@.nodes.dom(), str_order_fn(), p);
        assert(a@.nodes.dom().filter(p) =~= a@.nodes.dom().difference(b@.nodes.dom()));
    }
    out
}

/// Endpoints whose node is among the first `i` ids, or is id `i` with a
/// name among the first `j` names.
spec fn eps_upto(
    n: NetworkV,
    ids: Seq<Seq<char>>,
    i: int,
    names: Seq<Seq<char>>,
    j: int,
) -> Set<EndpointV> {
    Set::new(
        |e: EndpointV|
            n.has_endpoint(e) && (ids.take(i).contains(e.0) || (e.0 == ids[i] && names.take(
                j,
            ).contains(e.1))),
    )
}

/// All interfaces of a network as `(node, name)`, ascending.
pub(crate) fn endpoints(net: &Network) -> (r: Vec<(String, String)>)
    requires
        net.wf(),
    ensures
        pair_views(r@) == sorted_eps(iface_set(net@)),
{
    proof {
        net.lemma_orders();
        lemma_ep_strict();
    }
    let ghost ids = net.node_ids();
    let nn = net.node_count();
    let mut out: Vec<(String, String)> = Vec::new();
    let mut i: usize = 0;
    proof {
        assert(pair_views(out@) =~= Seq::<EndpointV>::empty());
        assert(eps_upto(net@, ids, 0, Seq::empty(), 0) =~= Set::<EndpointV>::empty());
    }
    while i < nn
        invariant
            net.wf(),
            ids == net.node_ids(),
            nn == ids.len(),
            i <= nn,
            sorted_by(pair_views(out@), ep_order_fn()),
            enumerates(pair_views(out@), eps_upto(net@, ids, i as int, Seq::empty(), 0)),
            forall|x: int| 0 <= x < ids.len() ==> net@.nodes.dom().contains(#[trigger] ids[x]),
            forall|x: int, y: int| 0 <= x < y < ids.len() ==> str_lt(#[trigger] ids[x], #[trigger] ids[y]),
            forall|k: Seq<char>| #[trigger] net@.nodes.dom().contains(k) ==> ids.contains(k),
        decreases nn - i,
    {
        let node = net.node_at(i);
        let id = node.id_ref();
        proof {
            node.lemma_interface_names();
        }
        let ghost names = node.interface_names();
        let m = node.interface_count();
        let mut j: usize = 0;
        proof {
            assert(eps_upto(net@, ids, i as int, names, 0) =~= eps_upto(
                net@,
                ids,
                i as int,
                Seq::empty(),
                0,
            ));
        }
        while j < m
            invariant
                net.wf(),
                node.wf(),
                ids == net.node_ids(),
                nn == ids.len(),
                i < nn,
                id@ == ids[i as int],
                node@ == net@.nodes[ids[i as int]],
                names == node.interface_names(),
                m == names.len(),
                j <= m,
                sorted_by(pair_views(out@), ep_order_fn()),
                enumerates(pair_views(out@), eps_upto(net@, ids, i as int, names, j as int)),
                forall|x: int| 0 <= x < names.len() ==> node@.interfaces.dom().contains(#[trigger] names[x]),
                forall|x: int, y: int| 0 <= x < y < names.len() ==> str_lt(#[trigger] names[x], #[trigger] names[y]),
                forall|x: int, y: int| 0 <= x < y < ids.len() ==> str_lt(#[trigger] ids[x], #[trigger] ids[y]),
                forall|x: int| 0 <= x < ids.len() ==> net@.nodes.dom().contains(#[trigger] ids[x]),
            decreases m - j,
        {
            let ifc = node.interface_at(j);
            let ghost e = (id@, ifc.name@);
            let ghost before = pair_views(out@);
            proof {
                assert forall|x: int| 0 <= x < before.len() implies ep_lt(#[trigger] before[x], e) by {
                    assert(before.contains(before[x]));
                    let bx = before[x];
                    assert(eps_upto(net@, ids, i as int, names, j as int).contains(bx));
                    if ids.take(i as int).contains(bx.0) {
                        let y = choose|y: int| 0 <= y < i && ids.take(i as int)[y] == bx.0;
                        assert(str_lt(ids[y], ids[i as int]));
                    } else {
                        let y = choose|y: int| 0 <= y < j && names.take(j as int)[y] == bx.1;
                        assert(str_lt(names[y], names[j as int]));
                    }
                }
            }
            out.push((id.clone(), ifc.name.clone()));
            proof {
                let after = pair_views(out@);
                assert(after =~= before.push(e));
                assert(sorted_by(after, ep_order_fn())) by {
                    assert forall|x: int, y: int| 0 <= x < y < after.len() implies (ep_order_fn())(
                        #[trigger] after[x],
                        #[trigger] after[y],
                    ) by {
                        if y == before.len() {
                            assert(ep_lt(before[x], e));
                        } else {
                            assert(after[x] == before[x] && after[y] == before[y]);
                        }
                    }
                }
                assert(enumerates(after, eps_upto(net@, ids, i as int, names, j + 1))) by {
                    assert forall|z: EndpointV| #[trigger] eps_upto(net@, ids, i as int, names, j + 1).contains(z)
                        <==> after.contains(z) by {
                        lemma_take_contains(names, j as int, z.1);
                        assert(eps_upto(net@, ids, i as int, names, j as int).contains(z) <==> before.contains(z));
                        if z == e {
                            assert(after[before.len() as int] == e);
                            assert(node@.interfaces.dom().contains(names[j as int]));
                        } else {
                            if after.contains(z) {
                                let y = choose|y: int| 0 <= y < after.len() && after[y] == z;
                                assert(before[y] == z);
                                assert(before.contains(z));
                            }
                            if before.contains(z) {
                                let y = choose|y: int| 0 <= y < before.len() && before[y] == z;
                                assert(after[y] == z);
                            }
                        }
                    }
                }
            }
            j = j + 1;
        }
        proof {
            assert(eps_upto(net@, ids, i + 1, Seq::empty(), 0) =~= eps_upto(
                net@,
                ids,
                i as int,
                names,
                m as int,
            )) by {
                assert(ids.take(i + 1) =~= ids.take(i as int).push(ids[i as int]));
                assert(names.take(m as int) =~= names);
                assert forall|z: EndpointV| #[trigger] eps_upto(net@, ids, i + 1, Seq::empty(), 0).contains(z)
                    <==> eps_upto(net@, ids, i as int, names, m as int).contains(z) by {
                    if net@.has_endpoint(z) && z.0 == ids[i as int] {
                        assert(node@.interfaces.dom().contains(z.1));
                        assert(names.contains(z.1));
                    }
                    lemma_take_contains(ids, i as int, z.0);
                    if net@.has_endpoint(z) && z.0 == ids[i as int] && names.contains(z.1) {
                        let y = choose|y: int| 0 <= y < names.len() && names[y] == z.1;
                        assert(names.take(m as int)[y] == z.1);
                    }
                }
            }
        }
        i = i + 1;
    }
    proof {
        assert(eps_upto(net@, ids, nn as int, Seq::empty(), 0) =~= iface_set(net@)) by {
            assert(ids.take(nn as int) =~= ids);
        }
        lemma_sorted_enum(pair_views(out@), iface_set(net@), ep_order_fn());
    }
    out
}

/// Whether a network has the interface `node/name`.
pub(crate) fn has_interface(net: &Network, node: &str, name: &str) -> (r: bool)
    requires
        net.wf(),
    ensures
        r == net@.has_endpoint((node@, name@)),
{
    match net.node(node) {
        None => false,
        Some(n) => n.interface(name).is_some(),
    }
}

/// The interfaces of `a` that `b` lacks, ascending.
pub(crate) fn missing_interfaces(a: &Network, b: &Network) -> (r: Vec<(String, String)>)
    requires
        a.wf(),
        b.wf(),
    ensures
        pair_views(r@) == sorted_eps(iface_set(a@).difference(iface_set(b@))),
{
    let all = endpoints(a);
    let ghost s = pair_views(all@);
    let ghost p = |e: EndpointV| !b@.has_endpoint(e);
    let mut out: Vec<(String, String)> = Vec::new();
    let mut i: usize = 0;
    while i < all.len()
        invariant
            b.wf(),
            s == pair_views(all@),
            i <= all@.len(),
            pair_views(out@) == s.take(i as int).filter(p),
            p == (|e: EndpointV| !b@.has_endpoint(e)),
        decreases all@.len() - i,
    {
        let e = &all[i];
        proof {
            lemma_take_filter(s, i as int, p);
            assert(s[i as int] == (e.0@, e.1@));
        }
        if !has_interface(b, e.0.as_str(), e.1.as_str()) {
            let ghost before = out@;
            out.push((e.0.clone(), e.1.clone()));
            proof {
                assert(pair_views(out@) =~= pair_views(before).push((e.0@, e.1@)));
            }
        }
        i = i + 1;
    }
    proof {
        assert(s.take(all@.len() as int) =~= s);
        lemma_ep_strict();
        let d = iface_set(a@);
        lemma_sorted_enum_exists_for_ifaces(a);
        lemma_filter_sorted_enum(s, d, ep_order_fn(), p);
        assert(d.filter(p) =~= d.difference(iface_set(b@)));
    }
    out
}

pub(crate) proof fn lemma_sorted_enum_exists_for_ifaces(a: &Network)
    requires
        a.wf(),
    ensures
        iface_set(a@).finite(),
        sorted_by(sorted_eps(iface_set(a@)), ep_order_fn()),
        enumerates(sorted_eps(iface_set(a@)), iface_set(a@)),
{
    let d = iface_set(a@);
    lemma_ep_strict();
    a.lemma_orders();
    a.lemma_metadata_finite();
    // the interface set is finite: it is covered by nodes' finite interface maps
    let ids = a.node_ids();
    assert(d.finite()) by {
        lemma_ifaces_finite(a@, ids, ids.len() as int);
        assert(d =~= ifaces_of(a@, ids, ids.len() as int)) by {
            assert forall|e: EndpointV| #[trigger] d.contains(e) <==> ifaces_of(a@, ids, ids.len() as int).contains(e) by {
                if d.contains(e) {
                    assert(a@.nodes.dom().contains(e.0));
                    assert(ids.contains(e.0));
                    assert(ids.take(ids.len() as int) =~= ids);
                }
            }
        }
    }
    lemma_sorted_enum_exists(d, ep_order_fn());
}

/// Endpoints of `n` whose node is among the first `i` ids.
spec fn ifaces_of(n: NetworkV, ids: Seq<Seq<char>>, i: int) -> Set<EndpointV> {
    Set::new(|e: EndpointV| n.has_endpoint(e) && ids.take(i).contains(e.0))
}

proof fn lemma_ifaces_finite(n: NetworkV, ids: Seq<Seq<char>>, i: int)
    requires
        0 <= i <= ids.len(),
        n.valid(),
    ensures
        ifaces_of(n, ids, i).finite(),
    decreases i,
{
    if i == 0 {
        assert(ifaces_of(n, ids, 0) =~= Set::<EndpointV>::empty());
    } else {
        lemma_ifaces_finite(n, ids, i - 1);
        let k = ids[i - 1];
        let extra = Set::new(|e: EndpointV| n.has_endpoint(e) && e.0 == k);
        if n.nodes.dom().contains(k) {
            let names = n.nodes[k].interfaces.dom();
            assert(names.finite());
            let g = |nm: Seq<char>| (k, nm);
            assert(extra =~= names.map(g)) by {
                assert forall|e: EndpointV| #[trigger] extra.contains(e) implies names.map(g).contains(e) by {
                    assert(names.contains(e.1));
                    assert(g(e.1) == e);
                }
            }
            names.lemma_map_finite(g);
        } else {
            assert(extra =~= Set::<EndpointV>::empty());
        }
        assert(ifaces_of(n, ids, i) =~= ifaces_of(n, ids, i - 1).union(extra)) by {
            assert forall|e: EndpointV| #[trigger] ifaces_of(n, ids, i).contains(e) <==> ifaces_of(n, ids, i - 1).union(extra).contains(e) by {
                lemma_take_contains(ids, i - 1, e.0);
            }
        }
    }
}

/// The links of `a` that `b` lacks, ascending by key.
pub(crate) fn missing_links(a: &Network, b: &Network) -> (r: Vec<(Endpoint, Endpoint)>)
    requires
        a.wf(),
        b.wf(),
    ensures
        key_views(r@) == sorted_keys(a@.links.dom().difference(b@.links.dom())),
{
    let ghost p = |k: LinkKeyV| !b@.links.dom().contains(k);
    proof {
        a.lemma_orders();
        a.lemma_metadata_finite();
    }
    let n = a.link_count();
    let mut out: Vec<(Endpoint, Endpoint)> = Vec::new();
    let mut i: usize = 0;
    while i < n
        invariant
            a.wf(),
            b.wf(),
            a@.valid(),
            n == a.link_keys().len(),
            i <= n,
            key_views(out@) == a.link_keys().take(i as int).filter(p),
            p == (|k: LinkKeyV| !b@.links.dom().contains(k)),
            forall|x: int| 0 <= x < a.link_keys().len() ==> a@.links.dom().contains(#[trigger] a.link_keys()[x]),
        decreases n - i,
    {
        let l = a.link_at(i);
        let key = l.key();
        proof {
            lemma_take_filter(a.link_keys(), i as int, p);
            assert(a@.links.dom().contains(a.link_keys()[i as int]));
            assert(ep_lt(key.0@, key.1@));
        }
        if b.link(&key.0, &key.1).is_none() {
            let ghost before = out@;
            out.push(key);
            proof {
                assert(key_views(out@) =~= key_views(before).push(a.link_keys()[i as int]));
            }
        }
        i = i + 1;
    }
    proof {
        assert(a.link_keys().take(n as int) =~= a.link_keys());
        lemma_key_strict();
        assert(enumerates(a.link_keys(), a@.links.dom())) by {
            assert forall|x: LinkKeyV| #[trigger] a@.links.dom().contains(x) <==> a.link_keys().contains(x) by {
                if a.link_keys().contains(x) {
                    let j = choose|j: int| 0 <= j < a.link_keys().len() && a.link_keys()[j] == x;
                    assert(a@.links.dom().contains(a.link_keys()[j]));
                }
            }
        }
        lemma_filter_sorted_enum(a.link_keys(), a@.links.dom(), key_order_fn(), p);
        assert(a@.links.dom().filter(p) =~= a@.links.dom().difference(b@.links.dom()));
    }
    out
}

/// Two networks have the same nodes, interfaces and links (metadata aside).
pub open spec fn same_topology(a: NetworkV, b: NetworkV) -> bool {
    &&& a.nodes.dom() == b.nodes.dom()
    &&& iface_set(a) == iface_set(b)
    &&& a.links.dom() == b.links.dom()
}

/// An enumeration is empty exactly when its set is.
pub(crate) proof fn lemma_enum_empty<A>(s: Seq<A>, d: Set<A>)
    requires
        enumerates(s, d),
    ensures
        s.len() == 0 <==> d =~= Set::<A>::empty(),
{
    if s.len() > 0 {
        assert(s.contains(s[0]));
        assert(d.contains(s[0]));
    } else {
        assert forall|x: A| !d.contains(x) by {
            if d.contains(x) {
                assert(s.contains(x));
            }
        }
    }
}

/// Compute the semantic diff `from -> to`: every list is the ascending
/// enumeration of the objects present on one side and absent on the other,
/// so the diff is empty exactly when the topologies are the same.
pub fn diff(from: &Network, to: &Network) -> (d: Diff)
    requires
        from.wf(),
        to.wf(),
    ensures
        str_views(d.added_nodes@) == sorted_strs(to@.nodes.dom().difference(from@.nodes.dom())),
        str_views(d.removed_nodes@) == sorted_strs(from@.nodes.dom().difference(to@.nodes.dom())),
        pair_views(d.added_interfaces@) == sorted_eps(iface_set(to@).difference(iface_set(from@))),
        pair_views(d.removed_interfaces@) == sorted_eps(iface_set(from@).difference(iface_set(to@))),
        key_views(d.added_links@) == sorted_keys(to@.links.dom().difference(from@.links.dom())),
        key_views(d.removed_links@) == sorted_keys(from@.links.dom().difference(to@.links.dom())),
        (d.added_nodes@.len() == 0 && d.removed_nodes@.len() == 0 && d.added_interfaces@.len() == 0
            && d.removed_interfaces@.len() == 0 && d.added_links@.len() == 0 && d.removed_links@.len()
            == 0) <==> same_topology(from@, to@),
{
    let d = Diff {
        added_nodes: missing_nodes(to, from),
        removed_nodes: missing_nodes(from, to),
        added_interfaces: missing_interfaces(to, from),
        removed_interfaces: missing_interfaces(from, to),
        added_links: missing_links(to, from),
        removed_links: missing_links(from, to),
    };
    proof {
        let f = from@;
        let t = to@;
        from.lemma_metadata_finite();
        to.lemma_metadata_finite();
        lemma_sorted_enum_exists_for_ifaces(from);
        lemma_sorted_enum_exists_for_ifaces(to);
        lemma_str_strict();
        lemma_key_strict();
        lemma_ep_strict();
        let s1 = t.nodes.dom().difference(f.nodes.dom());
        let s2 = f.nodes.dom().difference(t.nodes.dom());
        let s3 = iface_set(t).difference(iface_set(f));
        let s4 = iface_set(f).difference(iface_set(t));
        let s5 = t.links.dom().difference(f.links.dom());
        let s6 = f.links.dom().difference(t.links.dom());
        vstd::set_lib::lemma_set_subset_finite(t.nodes.dom(), s1);
        vstd::set_lib::lemma_set_subset_finite(f.nodes.dom(), s2);
        vstd::set_lib::lemma_set_subset_finite(iface_set(t), s3);
        vstd::set_lib::lemma_set_subset_finite(iface_set(f), s4);
        vstd::set_lib::lemma_set_subset_finite(t.links.dom(), s5);
        vstd::set_lib::lemma_set_subset_finite(f.links.dom(), s6);
        lemma_sorted_enum_exists(s1, str_order_fn());
        lemma_sorted_enum_exists(s2, str_order_fn());
        lemma_sorted_enum_exists(s3, ep_order_fn());
        lemma_sorted_enum_exists(s4, ep_order_fn());
        lemma_sorted_enum_exists(s5, key_order_fn());
        lemma_sorted_enum_exists(s6, key_order_fn());
        lemma_enum_empty(sorted_strs(s1), s1);
        lemma_enum_empty(sorted_strs(s2), s2);
        lemma_enum_empty(sorted_eps(s3), s3);
        lemma_enum_empty(sorted_eps(s4), s4);
        lemma_enum_empty(sorted_keys(s5), s5);
        lemma_enum_empty(sorted_keys(s6), s6);
        assert(str_views(d.added_nodes@).len() == d.added_nodes@.len());
        assert(str_views(d.removed_nodes@).len() == d.removed_nodes@.len());
        assert(pair_views(d.added_interfaces@).len() == d.added_interfaces@.len());
        assert(pair_views(d.removed_interfaces@).len() == d.removed_interfaces@.len());
        assert(key_views(d.added_links@).len() == d.added_links@.len());
        assert(key_views(d.removed_links@).len() == d.removed_links@.len());
        if same_topology(f, t) {
            assert(s1 =~= Set::<Seq<char>>::empty());
            assert(s2 =~= Set::<Seq<char>>::empty());
            assert(s3 =~= Set::<EndpointV>::empty());
            assert(s4 =~= Set::<EndpointV>::empty());
            assert(s5 =~= Set::<LinkKeyV>::empty());
            assert(s6 =~= Set::<LinkKeyV>::empty());
        }
        if s1 =~= Set::<Seq<char>>::empty() && s2 =~= Set::<Seq<char>>::empty() {
            assert forall|k: Seq<char>| f.nodes.dom().contains(k) <==> t.nodes.dom().contains(k) by {
                if f.nodes.dom().contains(k) && !t.nodes.dom().contains(k) {
                    assert(s2.contains(k));
                }
                if t.nodes.dom().contains(k) && !f.nodes.dom().contains(k) {
                    assert(s1.contains(k));
                }
            }
            assert(f.nodes.dom() =~= t.nodes.dom());
        }
        if s3 =~= Set::<EndpointV>::empty() && s4 =~= Set::<EndpointV>::empty() {
            assert forall|e: EndpointV| iface_set(f).contains(e) <==> iface_set(t).contains(e) by {
                if iface_set(f).contains(e) && !iface_set(t).contains(e) {
                    assert(s4.contains(e));
                }
                if iface_set(t).contains(e) && !iface_set(f).contains(e) {
                    assert(s3.contains(e));
                }
            }
            assert(iface_set(f) =~= iface_set(t));
        }
        if s5 =~= Set::<LinkKeyV>::empty() && s6 =~= Set::<LinkKeyV>::empty() {
            assert forall|k: LinkKeyV| f.links.dom().contains(k) <==> t.links.dom().contains(k) by {
                if f.links.dom().contains(k) && !t.links.dom().contains(k) {
                    assert(s6.contains(k));
                }
                if t.links.dom().contains(k) && !f.links.dom().contains(k) {
                    assert(s5.contains(k));
                }
            }
            assert(f.links.dom() =~= t.links.dom());
        }
    }
    d
}

} // verus!
