//! Explicit state transitions: pure functions from a network and an
//! operation to a new network or a structured rejection. The input network
//! is never changed.
use vstd::prelude::*;
use crate::model::{
    bare_link, endpoint_error, ep_text, is_invalid_id_error, key_texts, norm_key, pair_views,
    touches_endpoint, touches_node, valid_id, with_interface, without_interface, Endpoint,
    InterfaceV, LinkKeyV, Metadata, ModelError, Network, NetworkV, NodeV,
};

verus! {

/// The operation vocabulary.
#[derive(Debug, Clone, PartialEq, Eq)]
pub enum Operation {
    AddNode { id: String, metadata: Metadata },
    RemoveNode { id: String },
    AddInterface { node: String, name: String },
    RemoveInterface { node: String, name: String },
    AddLink { a: Endpoint, b: Endpoint },
    RemoveLink { a: Endpoint, b: Endpoint },
}

impl Operation {
    /// The metadata an operation carries is well formed.
    pub open spec fn wf(&self) -> bool {
        match self {
            Operation::AddNode { metadata, .. } => metadata.wf(),
            _ => true,
        }
    }
}

/// A rejected transition, explained by the model error.
#[derive(Debug, Clone, PartialEq, Eq)]
pub enum TransitionError {
    Invalid(ModelError),
}

/// The network an operation produces, or `None` when it is rejected.
pub open spec fn op_result(n: NetworkV, op: Operation) -> Option<NetworkV> {
    match op {
        Operation::AddNode { id, metadata } => if valid_id(id@) && !n.nodes.dom().contains(id@) {
            Some(
                NetworkV {
                    nodes: n.nodes.insert(
                        id@,
                        NodeV {
                            id: id@,
                            metadata: metadata@,
                            interfaces: Map::<Seq<char>, InterfaceV>::empty(),
                        },
                    ),
                    links: n.links,
                },
            )
        } else {
            None
        },
        Operation::RemoveNode { id } => if n.nodes.dom().contains(id@) && !n.node_linked(id@) {
            Some(NetworkV { nodes: n.nodes.remove(id@), links: n.links })
        } else {
            None
        },
        Operation::AddInterface { node, name } => if valid_id(name@) && n.nodes.dom().contains(
            node@,
        ) && !n.nodes[node@].interfaces.dom().contains(name@) {
            Some(with_interface(n, node@, name@))
        } else {
            None
        },
        Operation::RemoveInterface { node, name } => if n.nodes.dom().contains(node@)
            && !n.iface_linked((node@, name@)) && n.nodes[node@].interfaces.dom().contains(name@) {
            Some(without_interface(n, node@, name@))
        } else {
            None
        },
        Operation::AddLink { a, b } => if n.has_endpoint(a@) && n.has_endpoint(b@) && a@.0 != b@.0
            && !n.links.dom().contains(norm_key(a@, b@)) {
            Some(
                NetworkV {
                    nodes: n.nodes,
                    links: n.links.insert(norm_key(a@, b@), bare_link(norm_key(a@, b@))),
                },
            )
        } else {
            None
        },
        Operation::RemoveLink { a, b } => if n.has_endpoint(a@) && n.has_endpoint(b@)
            && n.links.dom().contains(norm_key(a@, b@)) {
            Some(NetworkV { nodes: n.nodes, links: n.links.remove(norm_key(a@, b@)) })
        } else {
            None
        },
    }
}

/// The error a rejected operation reports (the first rule it breaks).
pub open spec fn op_error(net: Network, op: Operation, e: ModelError) -> bool {
    let n = net@;
    match op {
        Operation::AddNode { id, .. } => if !valid_id(id@) {
            is_invalid_id_error(e, id@)
        } else {
            e matches ModelError::NodeExists { id: x } && x@ == id@
        },
        Operation::RemoveNode { id } => if !n.nodes.dom().contains(id@) {
            e matches ModelError::NodeMissing { id: x } && x@ == id@
        } else {
            e matches ModelError::NodeInUse { id: x, links } && x@ == id@ && pair_views(links@)
                == key_texts(net.link_keys().filter(touches_node(id@)))
        },
        Operation::AddInterface { node, name } => if !valid_id(name@) {
            is_invalid_id_error(e, name@)
        } else if !n.nodes.dom().contains(node@) {
            e matches ModelError::NodeMissing { id: x } && x@ == node@
        } else {
            e matches ModelError::InterfaceExists { node: x, name: y } && x@ == node@ && y@ == name@
        },
        Operation::RemoveInterface { node, name } => if !n.nodes.dom().contains(node@) {
            e matches ModelError::NodeMissing { id: x } && x@ == node@
        } else if n.iface_linked((node@, name@)) {
            e matches ModelError::InterfaceInUse { node: x, name: y, links } && x@ == node@ && y@
                == name@ && pair_views(links@) == key_texts(
                net.link_keys().filter(touches_endpoint((node@, name@))),
            )
        } else {
            e matches ModelError::InterfaceMissing { node: x, name: y } && x@ == node@ && y@ == name@
        },
        Operation::AddLink { a, b } => if !n.has_endpoint(a@) {
            endpoint_error(n, a@, e)
        } else if !n.has_endpoint(b@) {
            endpoint_error(n, b@, e)
        } else if a@ == b@ {
            e matches ModelError::SelfLoop { endpoint } && endpoint@ == ep_text(a@)
        } else if a@.0 == b@.0 {
            e matches ModelError::SameNodeLoop { node } && node@ == a@.0
        } else {
            e matches ModelError::LinkExists { a: x, b: y } && x@ == ep_text(norm_key(a@, b@).0)
                && y@ == ep_text(norm_key(a@, b@).1)
        },
        Operation::RemoveLink { a, b } => if !n.has_endpoint(a@) {
            endpoint_error(n, a@, e)
        } else if !n.has_endpoint(b@) {
            endpoint_error(n, b@, e)
        } else {
            e matches ModelError::LinkMissing { a: x, b: y } && x@ == ep_text(norm_key(a@, b@).0)
                && y@ == ep_text(norm_key(a@, b@).1)
        },
    }
}

/// The network a sequence of operations produces, applied in order and
/// stopping at the first rejection.
pub open spec fn ops_result(n: NetworkV, ops: Seq<Operation>) -> Option<NetworkV>
    decreases ops.len(),
{
    if ops.len() == 0 {
        Some(n)
    } else {
        match op_result(n, ops[0]) {
            None => None,
            Some(m) => ops_result(m, ops.drop_first()),
        }
    }
}

/// Applying an operation does what the matching `Network` method states
/// of itself: it succeeds exactly when that method does, with the network
/// that method leaves behind (`add_node`, `remove_node`, `add_interface`,
/// `remove_interface`, `add_link`, `remove_link`, each by its contract).
pub proof fn law_apply_is_the_network_method(n: NetworkV, op: Operation)
    ensures
        match op {
            Operation::AddNode { id, metadata } => (op_result(n, op) is Some <==> valid_id(id@)
                && !n.nodes.dom().contains(id@)) && (op_result(n, op) is Some ==> op_result(n, op)
                == Some(
                NetworkV {
                    nodes: n.nodes.insert(
                        id@,
                        NodeV {
                            id: id@,
                            metadata: metadata@,
                            interfaces: Map::<Seq<char>, InterfaceV>::empty(),
                        },
                    ),
                    links: n.links,
                },
            )),
            Operation::RemoveNode { id } => (op_result(n, op) is Some <==> n.nodes.dom().contains(id@)
                && !n.node_linked(id@)) && (op_result(n, op) is Some ==> op_result(n, op) == Some(
                NetworkV { nodes: n.nodes.remove(id@), links: n.links },
            )),
            Operation::AddInterface { node, name } => (op_result(n, op) is Some <==> valid_id(name@)
                && n.nodes.dom().contains(node@) && !n.nodes[node@].interfaces.dom().contains(name@)) && (
            op_result(n, op) is Some ==> op_result(n, op) == Some(with_interface(n, node@, name@))),
            Operation::RemoveInterface { node, name } => (op_result(n, op) is Some <==> n.nodes.dom().contains(
                node@,
            ) && !n.iface_linked((node@, name@)) && n.nodes[node@].interfaces.dom().contains(name@)) && (
            op_result(n, op) is Some ==> op_result(n, op) == Some(without_interface(n, node@, name@))),
            Operation::AddLink { a, b } => (op_result(n, op) is Some <==> n.has_endpoint(a@) && n.has_endpoint(
                b@,
            ) && a@.0 != b@.0 && !n.links.dom().contains(norm_key(a@, b@))) && (op_result(n, op) is Some
                ==> op_result(n, op) == Some(
                NetworkV {
                    nodes: n.nodes,
                    links: n.links.insert(norm_key(a@, b@), bare_link(norm_key(a@, b@))),
                },
            )),
            Operation::RemoveLink { a, b } => (op_result(n, op) is Some <==> n.has_endpoint(a@)
                && n.has_endpoint(b@) && n.links.dom().contains(norm_key(a@, b@))) && (op_result(n, op) is Some
                ==> op_result(n, op) == Some(NetworkV { nodes: n.nodes, links: n.links.remove(norm_key(a@, b@)) })),
        },
{
}

/// Adding a fresh node and then removing it gives back the network.
pub proof fn law_add_then_remove_node(n: NetworkV, id: String, metadata: Metadata)
    requires
        n.valid(),
        valid_id(id@),
        !n.nodes.dom().contains(id@),
    ensures
        ops_result(
            n,
            seq![Operation::AddNode { id, metadata }, Operation::RemoveNode { id }],
        ) == Some(n),
{
    let ops = seq![Operation::AddNode { id, metadata }, Operation::RemoveNode { id }];
    let m = op_result(n, ops[0]).unwrap();
    assert(!m.node_linked(id@)) by {
        if m.node_linked(id@) {
            let lk = choose|lk: LinkKeyV| #[trigger] m.links.dom().contains(lk) && (lk.0.0 == id@ || lk.1.0 == id@);
            assert(n.links.dom().contains(lk));
            assert(n.has_endpoint(lk.0) && n.has_endpoint(lk.1));
        }
    }
    assert(m.nodes.remove(id@) =~= n.nodes);
    assert(ops.drop_first() =~= seq![Operation::RemoveNode { id }]);
    assert(seq![Operation::RemoveNode { id }].drop_first() =~= Seq::<Operation>::empty());
    let rm = seq![Operation::RemoveNode { id }];
    assert(rm[0] == Operation::RemoveNode { id });
    assert(m.nodes.dom().contains(id@));
    let m2 = NetworkV { nodes: m.nodes.remove(id@), links: m.links };
    assert(op_result(m, rm[0]) == Some(m2));
    assert(m2 == n);
    assert(ops_result(n, rm.drop_first()) == Some(n));
    assert(ops_result(m, rm) == Some(n));
    assert(ops[0] == Operation::AddNode { id, metadata });
    assert(ops_result(n, ops) == ops_result(m, ops.drop_first()));
}

/// Apply one operation, producing a new network or a structured rejection.
pub fn apply(network: &Network, op: &Operation) -> (r: Result<Network, TransitionError>)
    requires
        network.wf(),
        op.wf(),
    ensures
        r is Ok <==> op_result(network@, *op) is Some,
        r matches Ok(n) ==> n.wf() && Some(n@) == op_result(network@, *op),
        r matches Err(TransitionError::Invalid(e)) ==> op_error(*network, *op, e),
{
    let mut next = network.duplicate();
    let res = match op {
        Operation::AddNode { id, metadata } => next.add_node(id.as_str(), metadata.duplicate()),
        Operation::RemoveNode { id } => next.remove_node(id.as_str()),
        Operation::AddInterface { node, name } => next.add_interface(node.as_str(), name.as_str()),
        Operation::RemoveInterface { node, name } => next.remove_interface(
            node.as_str(),
            name.as_str(),
        ),
        Operation::AddLink { a, b } => next.add_link(a.dup_endpoint(), b.dup_endpoint()),
        Operation::RemoveLink { a, b } => next.remove_link(a.dup_endpoint(), b.dup_endpoint()),
    };
    match res {
        Ok(()) => Ok(next),
        Err(e) => Err(TransitionError::Invalid(e)),
    }
}

/// Applying `a + b` is applying `a`, then `b` to its result.
proof fn lemma_ops_split(n: NetworkV, a: Seq<Operation>, b: Seq<Operation>)
    ensures
        ops_result(n, a + b) == match ops_result(n, a) {
            Some(m) => ops_result(m, b),
            None => None::<NetworkV>,
        },
    decreases a.len(),
{
    if a.len() == 0 {
        assert(a + b =~= b);
    } else {
        assert((a + b).drop_first() =~= a.drop_first() + b);
        assert((a + b)[0] == a[0]);
        match op_result(n, a[0]) {
            Some(m) => {
                lemma_ops_split(m, a.drop_first(), b);
            },
            None => {},
        }
    }
}

/// A prefix that applies, followed by an operation that applies, applies.
proof fn lemma_prefix_step(n: NetworkV, ops: Seq<Operation>, i: int, cur: NetworkV, next: NetworkV)
    requires
        0 <= i < ops.len(),
        ops_result(n, ops.take(i)) == Some(cur),
        op_result(cur, ops[i]) == Some(next),
    ensures
        ops_result(n, ops.take(i + 1)) == Some(next),
{
    let op = ops[i];
    assert(ops.take(i + 1) =~= ops.take(i) + seq![op]);
    lemma_ops_split(n, ops.take(i), seq![op]);
    assert(seq![op].drop_first() =~= Seq::<Operation>::empty());
    assert(seq![op][0] == op);
    assert(ops_result(next, Seq::<Operation>::empty()) == Some(next));
    assert(ops_result(cur, seq![op]) == Some(next));
}

/// Apply a sequence of operations in order, stopping at the first rejection.
pub fn apply_all(network: &Network, ops: &[Operation]) -> (r: Result<Network, TransitionError>)
    requires
        network.wf(),
        forall|i: int| 0 <= i < ops@.len() ==> (#[trigger] ops@[i]).wf(),
    ensures
        r is Ok <==> ops_result(network@, ops@) is Some,
        r matches Ok(n) ==> n.wf() && Some(n@) == ops_result(network@, ops@),
        r matches Err(TransitionError::Invalid(e)) ==> exists|i: int, m: Network|
            #![trigger ops_result(network@, ops@.take(i)), op_error(m, ops@[i], e)]
            0 <= i < ops@.len() && m.wf() && ops_result(network@, ops@.take(i)) == Some(m@)
                && op_result(m@, ops@[i]) is None && op_error(m, ops@[i], e),
{
    let mut current = network.duplicate();
    let mut i: usize = 0;
    proof {
        assert(ops@.skip(0) =~= ops@);
        assert(ops@.take(0) =~= Seq::<Operation>::empty());
    }
    while i < ops.len()
        invariant
            network.wf(),
            forall|j: int| 0 <= j < ops@.len() ==> (#[trigger] ops@[j]).wf(),
            i <= ops@.len(),
            current.wf(),
            ops_result(network@, ops@) == ops_result(current@, ops@.skip(i as int)),
            ops_result(network@, ops@.take(i as int)) == Some(current@),
        decreases ops.len() - i,
    {
        proof {
            assert(ops@.skip(i as int)[0] == ops@[i as int]);
            assert(ops@.skip(i as int).drop_first() =~= ops@.skip(i + 1));
        }
        match apply(&current, &ops[i]) {
            Ok(n) => {
                proof {
                    lemma_prefix_step(network@, ops@, i as int, current@, n@);
                }
                current = n;
            },
            Err(e) => {
                proof {
                    assert(ops_result(network@, ops@.take(i as int)) == Some(current@));
                }
                return Err(e);
            },
        }
        i = i + 1;
    }
    proof {
        assert(ops@.skip(i as int) =~= Seq::<Operation>::empty());
    }
    Ok(current)
}

} // verus!
