//! The text the command line prints for a path, a diff and a network's
//! contents.
use vstd::prelude::*;
use crate::text::owned;
use crate::model::{Network, NetworkV, NodeV, Node, Endpoint, LinkKeyV, ep_text, push_str};
use crate::diff::{Diff, str_views};
use crate::describe::{decimal, decimal_text};
use crate::invariants::{arrow_joined, arrow_join};
use crate::canonical::{sorted_strs, sorted_keys, str_order_fn, key_order_fn, lemma_str_strict, lemma_key_strict};
use crate::seqs::lemma_sorted_enum;

verus! {

/// Lines, each the prefix, one text and a newline.
pub open spec fn lines(pre: Seq<char>, xs: Seq<Seq<char>>) -> Seq<char>
    decreases xs.len(),
{
    if xs.len() == 0 {
        Seq::empty()
    } else {
        lines(pre, xs.drop_last()) + pre + xs.last() + "\n"@
    }
}

proof fn lemma_lines_push(pre: Seq<char>, xs: Seq<Seq<char>>, x: Seq<char>)
    ensures
        lines(pre, xs.push(x)) == lines(pre, xs) + pre + x + "\n"@,
{
    assert(xs.push(x).drop_last() =~= xs);
}

/// The text of a path: its hop count, then its nodes joined by ` -> `.
pub fn path_text(path: &Vec<String>) -> (r: String)
    requires
        path@.len() >= 1,
    ensures
        r@ == "path ("@ + decimal((path@.len() - 1) as nat) + " hop(s)):\n"@ + arrow_joined(str_views(path@))
            + "\n"@,
{
    let mut s = owned("path (");
    let n = decimal_text(path.len() - 1);
    push_str(&mut s, n.as_str());
    push_str(&mut s, " hop(s)):\n");
    let j = arrow_join(path);
    push_str(&mut s, j.as_str());
    push_str(&mut s, "\n");
    s
}

/// The texts `node/name` of interfaces.
pub open spec fn iface_texts(v: Seq<(String, String)>) -> Seq<Seq<char>> {
    v.map_values(|p: (String, String)| p.0@ + "/"@ + p.1@)
}

/// The texts `a <-> b` of links.
pub open spec fn link_texts(v: Seq<(Endpoint, Endpoint)>) -> Seq<Seq<char>> {
    v.map_values(|k: (Endpoint, Endpoint)| ep_text(k.0@) + " <-> "@ + ep_text(k.1@))
}

fn push_str_lines(out: &mut String, pre: &str, xs: &Vec<String>)
    ensures
        final(out)@ == old(out)@ + lines(pre@, str_views(xs@)),
{
    let ghost start = out@;
    let mut i: usize = 0;
    while i < xs.len()
        invariant
            i <= xs@.len(),
            out@ == start + lines(pre@, str_views(xs@.take(i as int))),
        decreases xs@.len() - i,
    {
        proof {
            assert(str_views(xs@.take(i + 1)) =~= str_views(xs@.take(i as int)).push(xs@[i as int]@));
            lemma_lines_push(pre@, str_views(xs@.take(i as int)), xs@[i as int]@);
        }
        push_str(out, pre);
        push_str(out, xs[i].as_str());
        push_str(out, "\n");
        i = i + 1;
    }
    proof {
        assert(xs@.take(xs@.len() as int) =~= xs@);
    }
}

fn push_iface_lines(out: &mut String, pre: &str, xs: &Vec<(String, String)>)
    ensures
        final(out)@ == old(out)@ + lines(pre@, iface_texts(xs@)),
{
    let ghost start = out@;
    let mut i: usize = 0;
    while i < xs.len()
        invariant
            i <= xs@.len(),
            out@ == start + lines(pre@, iface_texts(xs@.take(i as int))),
        decreases xs@.len() - i,
    {
        let ghost x = xs@[i as int].0@ + "/"@ + xs@[i as int].1@;
        proof {
            assert(iface_texts(xs@.take(i + 1)) =~= iface_texts(xs@.take(i as int)).push(x));
            lemma_lines_push(pre@, iface_texts(xs@.take(i as int)), x);
        }
        push_str(out, pre);
        push_str(out, xs[i].0.as_str());
        push_str(out, "/");
        push_str(out, xs[i].1.as_str());
        push_str(out, "\n");
        i = i + 1;
    }
    proof {
        assert(xs@.take(xs@.len() as int) =~= xs@);
    }
}

fn push_link_lines(out: &mut String, pre: &str, xs: &Vec<(Endpoint, Endpoint)>)
    ensures
        final(out)@ == old(out)@ + lines(pre@, link_texts(xs@)),
{
    let ghost start = out@;
    let mut i: usize = 0;
    while i < xs.len()
        invariant
            i <= xs@.len(),
            out@ == start + lines(pre@, link_texts(xs@.take(i as int))),
        decreases xs@.len() - i,
    {
        let ghost x = ep_text(xs@[i as int].0@) + " <-> "@ + ep_text(xs@[i as int].1@);
        proof {
            assert(link_texts(xs@.take(i + 1)) =~= link_texts(xs@.take(i as int)).push(x));
            lemma_lines_push(pre@, link_texts(xs@.take(i as int)), x);
        }
        push_str(out, pre);
        let a = xs[i].0.text();
        push_str(out, a.as_str());
        push_str(out, " <-> ");
        let b = xs[i].1.text();
        push_str(out, b.as_str());
        push_str(out, "\n");
        i = i + 1;
    }
    proof {
        assert(xs@.take(xs@.len() as int) =~= xs@);
    }
}

/// The text of a diff: added then removed nodes, interfaces and links, one
/// per line, each marked `+` or `-`.
pub open spec fn diff_lines(d: Diff) -> Seq<char> {
    lines("+ node: "@, str_views(d.added_nodes@)) + lines("- node: "@, str_views(d.removed_nodes@))
        + lines("+ interface: "@, iface_texts(d.added_interfaces@)) + lines(
        "- interface: "@,
        iface_texts(d.removed_interfaces@),
    ) + lines("+ link: "@, link_texts(d.added_links@)) + lines("- link: "@, link_texts(d.removed_links@))
}

/// Render a diff, one change per line.
pub fn diff_text(d: &Diff) -> (r: String)
    ensures
        r@ == diff_lines(*d),
{
    let mut s = String::new();
    push_str_lines(&mut s, "+ node: ", &d.added_nodes);
    push_str_lines(&mut s, "- node: ", &d.removed_nodes);
    push_iface_lines(&mut s, "+ interface: ", &d.added_interfaces);
    push_iface_lines(&mut s, "- interface: ", &d.removed_interfaces);
    push_link_lines(&mut s, "+ link: ", &d.added_links);
    push_link_lines(&mut s, "- link: ", &d.removed_links);
    proof {
        assert(s@ =~= diff_lines(*d));
    }
    s
}

/// One node's lines: the node, then its interfaces in ascending order.
pub open spec fn node_block(nv: NodeV) -> Seq<char> {
    "  node "@ + nv.id + "\n"@ + lines("    iface "@, sorted_strs(nv.interfaces.dom()))
}

/// The lines of the nodes with the given ids, in that order.
pub open spec fn node_blocks(n: NetworkV, ids: Seq<Seq<char>>) -> Seq<char>
    decreases ids.len(),
{
    if ids.len() == 0 {
        Seq::empty()
    } else {
        node_blocks(n, ids.drop_last()) + node_block(n.nodes[ids.last()])
    }
}

/// The text of a link key.
pub open spec fn key_text(k: LinkKeyV) -> Seq<char> {
    ep_text(k.0) + " <-> "@ + ep_text(k.1)
}

/// A network's contents: its nodes in ascending order, each followed by
/// its interfaces in ascending order, then its links in ascending order.
pub open spec fn listing(n: NetworkV) -> Seq<char> {
    node_blocks(n, sorted_strs(n.nodes.dom())) + lines(
        "  link "@,
        sorted_keys(n.links.dom()).map_values(|k: LinkKeyV| key_text(k)),
    )
}

fn push_node_block(out: &mut String, node: &Node)
    requires
        node.wf(),
    ensures
        final(out)@ == old(out)@ + node_block(node@),
{
    proof {
        node.lemma_interface_names();
        lemma_str_strict();
        lemma_sorted_enum(node.interface_names(), node@.interfaces.dom(), str_order_fn());
    }
    let ghost names = node.interface_names();
    push_str(out, "  node ");
    push_str(out, node.id_ref().as_str());
    push_str(out, "\n");
    let ghost start = out@;
    let n = node.interface_count();
    let mut i: usize = 0;
    while i < n
        invariant
            node.wf(),
            names == node.interface_names(),
            n == names.len(),
            i <= n,
            out@ == start + lines("    iface "@, names.take(i as int)),
        decreases n - i,
    {
        let ifc = node.interface_at(i);
        proof {
            assert(names.take(i + 1) =~= names.take(i as int).push(names[i as int]));
            lemma_lines_push("    iface "@, names.take(i as int), names[i as int]);
        }
        push_str(out, "    iface ");
        push_str(out, ifc.name.as_str());
        push_str(out, "\n");
        i = i + 1;
    }
    proof {
        assert(names.take(n as int) =~= names);
    }
}

/// Render a network's contents, one node, interface or link per line.
pub fn network_listing(net: &Network) -> (r: String)
    requires
        net.wf(),
    ensures
        r@ == listing(net@),
{
    proof {
        net.lemma_orders();
        lemma_str_strict();
        lemma_key_strict();
        lemma_sorted_enum(net.node_ids(), net@.nodes.dom(), str_order_fn());
        lemma_sorted_enum(net.link_keys(), net@.links.dom(), key_order_fn());
    }
    let ghost ids = net.node_ids();
    let ghost keys = net.link_keys();
    let mut s = String::new();
    let nn = net.node_count();
    let mut i: usize = 0;
    while i < nn
        invariant
            net.wf(),
            ids == net.node_ids(),
            nn == ids.len(),
            i <= nn,
            s@ == node_blocks(net@, ids.take(i as int)),
        decreases nn - i,
    {
        let node = net.node_at(i);
        proof {
            assert(ids.take(i + 1).drop_last() =~= ids.take(i as int));
            assert(ids.take(i + 1).last() == ids[i as int]);
        }
        push_node_block(&mut s, node);
        i = i + 1;
    }
    proof {
        assert(ids.take(nn as int) =~= ids);
    }
    let ghost mid = s@;
    let ghost texts = keys.map_values(|k: LinkKeyV| key_text(k));
    let nl = net.link_count();
    let mut j: usize = 0;
    while j < nl
        invariant
            net.wf(),
            keys == net.link_keys(),
            texts == keys.map_values(|k: LinkKeyV| key_text(k)),
            nl == keys.len(),
            j <= nl,
            s@ == mid + lines("  link "@, texts.take(j as int)),
        decreases nl - j,
    {
        let link = net.link_at(j);
        let t = link.text();
        proof {
            assert(t@ == key_text(keys[j as int]));
            assert(texts.take(j + 1) =~= texts.take(j as int).push(texts[j as int]));
            lemma_lines_push("  link "@, texts.take(j as int), texts[j as int]);
        }
        push_str(&mut s, "  link ");
        push_str(&mut s, t.as_str());
        push_str(&mut s, "\n");
        j = j + 1;
    }
    proof {
        assert(texts.take(nl as int) =~= texts);
    }
    s
}

} // verus!
