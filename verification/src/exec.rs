//! Isolated Linux namespace backend: maps a plan to an ordered list of
//! `ip` (iproute2) argument vectors. The mapping is pure and deterministic;
//! running the commands is left to the caller.
//!
//! Host safety: the only host-side commands are `ip netns add|del rahn-*`;
//! every interface and link change runs inside a `rahn-*` namespace.
use vstd::prelude::*;
use crate::text::{owned, sbytes, ascii_string, joined, lemma_joined_push, str_eq, lemma_sbytes_concat, lemma_sbytes_injective};
use crate::model::split_around;
use crate::model::{Network, NetworkV, Endpoint, EndpointV, LinkKeyV, push_str, ep_text};
use crate::identity::{sha256, sha256_spec, to_hex, hex_bytes};
use crate::diff::{str_views, iface_set, sorted_eps, endpoints, lemma_sorted_enum_exists_for_ifaces, missing_nodes};
use crate::model::pair_views;
use crate::seqs::enumerates;
use crate::canonical::sorted_strs;
use crate::sim::{
    Action, ActionV, action_views, plan_actions, plan, BackendError, BackendStep, Capabilities,
    ExecutionBackend,
};
use crate::merge::starts_with;
use crate::describe::{debug_str, debug_str_spec};

verus! {

/// Namespace name of a node: `rahn-<node>`.
pub open spec fn ns_text(node: Seq<char>) -> Seq<char> {
    "rahn-"@ + node
}

/// The bytes of a link end's interface name: `r` and the first seven hex
/// digits of SHA-256 over `node/iface`.
pub open spec fn veth_bytes(e: EndpointV) -> Seq<u8> {
    seq![114u8] + hex_bytes(sha256_spec(sbytes(ep_text(e)))).take(7)
}

/// The interface name of a link end, as text.
pub open spec fn veth_text(e: EndpointV) -> Seq<char> {
    choose|s: Seq<char>| sbytes(s) == veth_bytes(e)
}

/// Namespace name for a node: `rahn-<node-id>`.
pub fn ns_name(node: &str) -> (r: String)
    ensures
        r@ == ns_text(node@),
{
    let mut s = owned("rahn-");
    push_str(&mut s, node);
    s
}

/// Deterministic, IFNAMSIZ-safe interface name for a link end: `r` and
/// seven lowercase hex digits of SHA-256 over `node/iface`.
pub fn veth_name(e: &Endpoint) -> (r: String)
    ensures
        sbytes(r@) == veth_bytes(e@),
        r@ == veth_text(e@),
{
    let t = e.text();
    let d = sha256(t.as_str().as_bytes());
    let h = to_hex(&d);
    let hb = h.as_str().as_bytes();
    proof {
        assert(hb@ == hex_bytes(d@));
        assert(hb@.len() == 64);
    }
    let mut out: Vec<u8> = Vec::new();
    out.push(114);
    let mut i: usize = 0;
    while i < 7
        invariant
            hb@ == hex_bytes(d@),
            hb@.len() == 64,
            d@ == sha256_spec(sbytes(t@)),
            i <= 7,
            out@ == seq![114u8] + hb@.take(i as int),
        decreases 7 - i,
    {
        out.push(hb[i]);
        proof {
            assert(hb@.take(i + 1) =~= hb@.take(i as int).push(hb@[i as int]));
        }
        i = i + 1;
    }
    proof {
        assert forall|j: int| 0 <= j < out@.len() implies #[trigger] out@[j] < 128 by {
            if j > 0 {
                assert(out@[j] == hex_bytes(d@)[j - 1]);
                let b = d@[(j - 1) / 2];
                assert(b / 16 < 16 && b % 16 < 16);
            }
        }
    }
    let r = ascii_string(out);
    proof {
        assert(sbytes(r@) == veth_bytes(e@));
        let c = choose|s: Seq<char>| sbytes(s) == veth_bytes(e@);
        crate::text::lemma_sbytes_injective(r@, c);
    }
    r
}

/// Why execution is refused.
#[derive(Debug, Clone, PartialEq, Eq)]
pub enum ExecError {
    /// Interface name exceeds the kernel's 15-character limit.
    InterfaceNameTooLong(String),
}

impl ExecError {
    /// The human-readable text of the refusal.
    pub fn message(&self) -> (r: String)
        ensures
            self matches ExecError::InterfaceNameTooLong(n) && r@ == "interface name "@ + debug_str_spec(
                n@,
            ) + " exceeds 15 characters (kernel IFNAMSIZ limit)"@,
    {
        match self {
            ExecError::InterfaceNameTooLong(n) => {
                let mut s = owned("interface name ");
                let q = debug_str(n.as_str());
                push_str(&mut s, q.as_str());
                push_str(&mut s, " exceeds 15 characters (kernel IFNAMSIZ limit)");
                s
            },
        }
    }
}

/// One command to run: the argument vector, whose first entry is `ip`.
#[derive(Debug, Clone, PartialEq, Eq)]
pub struct IpCommand {
    pub args: Vec<String>,
}

/// The argument vector of a command, by views.
pub open spec fn argv_of(c: IpCommand) -> Seq<Seq<char>> {
    str_views(c.args@)
}

impl IpCommand {
    /// `ip` followed by the given arguments.
    fn new(args: Vec<String>) -> (r: IpCommand)
        ensures
            argv_of(r) == seq!["ip"@] + str_views(args@),
    {
        let mut v: Vec<String> = Vec::new();
        v.push(owned("ip"));
        let mut i: usize = 0;
        while i < args.len()
            invariant
                i <= args@.len(),
                str_views(v@) == seq!["ip"@] + str_views(args@).take(i as int),
            decreases args@.len() - i,
        {
            let ghost before = v@;
            v.push(args[i].clone());
            proof {
                assert(str_views(v@) =~= str_views(before).push(args@[i as int]@));
                assert(str_views(args@).take(i + 1) =~= str_views(args@).take(i as int).push(
                    args@[i as int]@,
                ));
            }
            i = i + 1;
        }
        proof {
            assert(str_views(args@).take(args@.len() as int) =~= str_views(args@));
        }
        IpCommand { args: v }
    }

    /// The program name.
    pub fn program(&self) -> (r: &'static str)
        ensures
            r@ == "ip"@,
    {
        "ip"
    }

    /// The full argument vector, program name first.
    pub fn argv(&self) -> (r: &[String])
        ensures
            r@ == self.args@,
    {
        self.args.as_slice()
    }

    /// The command line, arguments separated by spaces.
    pub fn text(&self) -> (r: String)
        ensures
            r@ == joined(str_views(self.args@), " "@),
    {
        let mut s = String::new();
        let mut i: usize = 0;
        while i < self.args.len()
            invariant
                i <= self.args@.len(),
                s@ == joined(str_views(self.args@.take(i as int)), " "@),
            decreases self.args@.len() - i,
        {
            proof {
                assert(str_views(self.args@.take(i + 1)) =~= str_views(self.args@.take(i as int)).push(
                    self.args@[i as int]@,
                ));
                lemma_joined_push(str_views(self.args@.take(i as int)), " "@, self.args@[i as int]@);
            }
            if i > 0 {
                push_str(&mut s, " ");
            }
            push_str(&mut s, self.args[i].as_str());
            i = i + 1;
        }
        proof {
            assert(self.args@.take(self.args@.len() as int) =~= self.args@);
            assert(str_views(Seq::<String>::empty()) =~= Seq::<Seq<char>>::empty());
        }
        s
    }
}

/// The commands realizing one action.
pub open spec fn action_cmds(a: ActionV) -> Seq<Seq<Seq<char>>> {
    match a {
        ActionV::RemoveLink(k) => seq![seq!["ip"@, "-n"@, ns_text(k.0.0), "link"@, "del"@, veth_text(k.0)]],
        ActionV::RemoveIface(e) => seq![seq!["ip"@, "-n"@, ns_text(e.0), "link"@, "del"@, e.1]],
        ActionV::RemoveNode(id) => seq![seq!["ip"@, "netns"@, "del"@, ns_text(id)]],
        ActionV::CreateNode(id) => seq![
            seq!["ip"@, "netns"@, "add"@, ns_text(id)],
            seq!["ip"@, "-n"@, ns_text(id), "link"@, "set"@, "lo"@, "up"@],
        ],
        ActionV::CreateIface(e) => seq![
            seq!["ip"@, "-n"@, ns_text(e.0), "link"@, "add"@, e.1, "type"@, "dummy"@],
            seq!["ip"@, "-n"@, ns_text(e.0), "link"@, "set"@, e.1, "up"@],
        ],
        ActionV::CreateLink(k) => seq![
            seq![
                "ip"@,
                "-n"@,
                ns_text(k.0.0),
                "link"@,
                "add"@,
                veth_text(k.0),
                "type"@,
                "veth"@,
                "peer"@,
                "name"@,
                veth_text(k.1),
            ],
            seq!["ip"@, "-n"@, ns_text(k.0.0), "link"@, "set"@, veth_text(k.1), "netns"@, ns_text(k.1.0)],
            seq!["ip"@, "-n"@, ns_text(k.0.0), "link"@, "set"@, veth_text(k.0), "up"@],
            seq!["ip"@, "-n"@, ns_text(k.1.0), "link"@, "set"@, veth_text(k.1), "up"@],
        ],
    }
}

/// The commands realizing a list of actions, in order.
pub open spec fn plan_cmds(acts: Seq<ActionV>) -> Seq<Seq<Seq<char>>>
    decreases acts.len(),
{
    if acts.len() == 0 {
        Seq::empty()
    } else {
        plan_cmds(acts.drop_last()) + action_cmds(acts.last())
    }
}

/// A model of the host as `ip` commands see it: each network namespace by
/// name, with the names of the interfaces inside it.
pub type HostV = Map<Seq<char>, Set<Seq<char>>>;

/// What one `ip` command does to the host, or `None` when `ip` would
/// refuse it: a namespace must exist to be used and not exist to be
/// added; an interface must be in the namespace the command names to be
/// set up, moved or deleted, and must not be there to be added; a moved
/// interface must not already exist in the target namespace.
pub open spec fn ip_step(h: HostV, a: Seq<Seq<char>>) -> Option<HostV> {
    if a.len() == 4 && a[0] == "ip"@ && a[1] == "netns"@ && a[2] == "add"@ {
        if h.dom().contains(a[3]) {
            None
        } else {
            Some(h.insert(a[3], set!["lo"@]))
        }
    } else if a.len() == 4 && a[0] == "ip"@ && a[1] == "netns"@ && a[2] == "del"@ {
        if h.dom().contains(a[3]) {
            Some(h.remove(a[3]))
        } else {
            None
        }
    } else if a.len() >= 6 && a[0] == "ip"@ && a[1] == "-n"@ && a[3] == "link"@ && h.dom().contains(a[2]) {
        let x = a[2];
        let ifs = h[x];
        let v = a[5];
        if a.len() == 8 && a[4] == "add"@ && a[6] == "type"@ && a[7] == "dummy"@ {
            if ifs.contains(v) {
                None
            } else {
                Some(h.insert(x, ifs.insert(v)))
            }
        } else if a.len() == 11 && a[4] == "add"@ && a[6] == "type"@ && a[7] == "veth"@ && a[8] == "peer"@
            && a[9] == "name"@ {
            if ifs.contains(v) || ifs.contains(a[10]) || v == a[10] {
                None
            } else {
                Some(h.insert(x, ifs.insert(v).insert(a[10])))
            }
        } else if a.len() == 8 && a[4] == "set"@ && a[6] == "netns"@ {
            let y = a[7];
            if ifs.contains(v) && h.dom().contains(y) && y != x && !h[y].contains(v) {
                Some(h.insert(x, ifs.remove(v)).insert(y, h[y].insert(v)))
            } else {
                None
            }
        } else if a.len() == 7 && a[4] == "set"@ && a[6] == "up"@ {
            if ifs.contains(v) {
                Some(h)
            } else {
                None
            }
        } else if a.len() == 6 && a[4] == "del"@ {
            if ifs.contains(v) {
                Some(h.insert(x, ifs.remove(v)))
            } else {
                None
            }
        } else {
            None
        }
    } else {
        None
    }
}

/// Commands run in order on the host; `None` at the first one refused.
pub open spec fn ip_run(h: HostV, cmds: Seq<Seq<Seq<char>>>) -> Option<HostV>
    decreases cmds.len(),
{
    if cmds.len() == 0 {
        Some(h)
    } else {
        match ip_run(h, cmds.drop_last()) {
            Some(g) => ip_step(g, cmds.last()),
            None => None,
        }
    }
}

proof fn lemma_ip_words()
    ensures
        "ip"@ != "-n"@,
        "netns"@ != "-n"@,
        "add"@ != "del"@,
        "add"@ != "set"@,
        "set"@ != "del"@,
        "dummy"@ != "veth"@,
        "netns"@ != "up"@,
        "link"@ == "link"@,
{
    reveal_strlit("ip");
    reveal_strlit("-n");
    reveal_strlit("netns");
    reveal_strlit("add");
    reveal_strlit("del");
    reveal_strlit("set");
    reveal_strlit("dummy");
    reveal_strlit("veth");
    reveal_strlit("up");
    assert("ip"@.len() != "-n"@.len() || "ip"@[0] != "-n"@[0]);
    assert("netns"@.len() != "-n"@.len());
    assert("add"@[0] != "del"@[0]);
    assert("add"@[0] != "set"@[0]);
    assert("set"@[0] != "del"@[0]);
    assert("dummy"@.len() != "veth"@.len());
    assert("netns"@.len() != "up"@.len());
}

/// Namespace names of different nodes differ.
proof fn lemma_ns_distinct(a: Seq<char>, b: Seq<char>)
    requires
        a != b,
    ensures
        ns_text(a) != ns_text(b),
{
    reveal_strlit("rahn-");
    if ns_text(a) == ns_text(b) {
        assert(a =~= ns_text(a).skip(5));
        assert(b =~= ns_text(b).skip(5));
    }
}

/// Running commands one after the other runs the first, then the second.
pub proof fn lemma_ip_run_concat(h: HostV, x: Seq<Seq<Seq<char>>>, y: Seq<Seq<Seq<char>>>)
    ensures
        ip_run(h, x + y) == match ip_run(h, x) {
            Some(g) => ip_run(g, y),
            None => None,
        },
    decreases y.len(),
{
    if y.len() == 0 {
        assert(x + y =~= x);
    } else {
        lemma_ip_run_concat(h, x, y.drop_last());
        assert((x + y).drop_last() =~= x + y.drop_last());
        assert((x + y).last() == y.last());
    }
}

/// The commands of a plan run as those of its actions, one action after
/// the other.
pub proof fn law_plan_runs_action_by_action(h: HostV, acts: Seq<ActionV>, a: ActionV)
    ensures
        ip_run(h, plan_cmds(acts.push(a))) == match ip_run(h, plan_cmds(acts)) {
            Some(g) => ip_run(g, action_cmds(a)),
            None => None,
        },
{
    assert(acts.push(a).drop_last() =~= acts);
    lemma_ip_run_concat(h, plan_cmds(acts), action_cmds(a));
}

proof fn lemma_run1(h: HostV, a: Seq<Seq<char>>)
    ensures
        ip_run(h, seq![a]) == ip_step(h, a),
{
    assert(seq![a].drop_last() =~= Seq::<Seq<Seq<char>>>::empty());
    assert(ip_run(h, Seq::<Seq<Seq<char>>>::empty()) == Some(h));
    assert(seq![a].last() == a);
}

proof fn lemma_run2(h: HostV, a: Seq<Seq<char>>, b: Seq<Seq<char>>)
    ensures
        ip_run(h, seq![a, b]) == match ip_step(h, a) {
            Some(g) => ip_step(g, b),
            None => None,
        },
{
    assert(seq![a, b].drop_last() =~= seq![a]);
    lemma_run1(h, a);
}

proof fn lemma_run4(h: HostV, a: Seq<Seq<char>>, b: Seq<Seq<char>>, c: Seq<Seq<char>>, d: Seq<Seq<char>>)
    ensures
        ip_run(h, seq![a, b, c, d]) == match ip_run(h, seq![a, b]) {
            Some(g) => ip_run(g, seq![c, d]),
            None => None,
        },
{
    assert(seq![a, b, c, d] =~= seq![a, b] + seq![c, d]);
    lemma_ip_run_concat(h, seq![a, b], seq![c, d]);
}

/// Creating a node's namespace adds it with its loopback up.
pub proof fn law_create_node_cmds(h: HostV, id: Seq<char>)
    requires
        !h.dom().contains(ns_text(id)),
    ensures
        ip_run(h, action_cmds(ActionV::CreateNode(id))) == Some(h.insert(ns_text(id), set!["lo"@])),
{
    lemma_ip_words();
    reveal_strlit("lo");
    reveal_strlit("link");
    let x = ns_text(id);
    let a0 = seq!["ip"@, "netns"@, "add"@, x];
    let a1 = seq!["ip"@, "-n"@, x, "link"@, "set"@, "lo"@, "up"@];
    assert(action_cmds(ActionV::CreateNode(id)) == seq![a0, a1]);
    assert(a0.len() == 4 && a0[0] == "ip"@ && a0[1] == "netns"@ && a0[2] == "add"@ && a0[3] == x);
    assert(a1.len() == 7 && a1[0] == "ip"@ && a1[1] == "-n"@ && a1[2] == x && a1[3] == "link"@ && a1[4] == "set"@
        && a1[5] == "lo"@ && a1[6] == "up"@);
    let g = h.insert(x, set!["lo"@]);
    assert(ip_step(h, a0) == Some(g));
    assert(set!["lo"@].contains("lo"@));
    assert(ip_step(g, a1) == Some(g));
    lemma_run2(h, a0, a1);
}

/// Creating an interface puts it, up, in its node's namespace.
pub proof fn law_create_iface_cmds(h: HostV, e: EndpointV)
    requires
        h.dom().contains(ns_text(e.0)),
        !h[ns_text(e.0)].contains(e.1),
    ensures
        ip_run(h, action_cmds(ActionV::CreateIface(e))) == Some(h.insert(ns_text(e.0), h[ns_text(e.0)].insert(e.1))),
{
    lemma_ip_words();
    reveal_strlit("link");
    reveal_strlit("type");
    let x = ns_text(e.0);
    let a0 = seq!["ip"@, "-n"@, x, "link"@, "add"@, e.1, "type"@, "dummy"@];
    let a1 = seq!["ip"@, "-n"@, x, "link"@, "set"@, e.1, "up"@];
    assert(action_cmds(ActionV::CreateIface(e)) == seq![a0, a1]);
    assert(a0.len() == 8 && a0[0] == "ip"@ && a0[1] == "-n"@ && a0[2] == x && a0[3] == "link"@ && a0[4] == "add"@
        && a0[5] == e.1 && a0[6] == "type"@ && a0[7] == "dummy"@);
    assert(a1.len() == 7 && a1[0] == "ip"@ && a1[1] == "-n"@ && a1[2] == x && a1[3] == "link"@ && a1[4] == "set"@
        && a1[5] == e.1 && a1[6] == "up"@);
    let g = h.insert(x, h[x].insert(e.1));
    assert(ip_step(h, a0) == Some(g));
    assert(ip_step(g, a1) == Some(g));
    lemma_run2(h, a0, a1);
}

/// Creating a link between interfaces of two different nodes leaves one
/// end of the veth pair in each node's namespace, each set up there: the
/// first end in the first node's namespace, the peer in the second's.
pub proof fn law_create_link_cmds(h: HostV, k: LinkKeyV)
    requires
        k.0.0 != k.1.0,
        veth_text(k.0) != veth_text(k.1),
        h.dom().contains(ns_text(k.0.0)),
        h.dom().contains(ns_text(k.1.0)),
        !h[ns_text(k.0.0)].contains(veth_text(k.0)),
        !h[ns_text(k.0.0)].contains(veth_text(k.1)),
        !h[ns_text(k.1.0)].contains(veth_text(k.1)),
    ensures
        ip_run(h, action_cmds(ActionV::CreateLink(k))) == Some(
            h.insert(ns_text(k.0.0), h[ns_text(k.0.0)].insert(veth_text(k.0))).insert(
                ns_text(k.1.0),
                h[ns_text(k.1.0)].insert(veth_text(k.1)),
            ),
        ),
{
    lemma_ip_words();
    reveal_strlit("link");
    reveal_strlit("type");
    reveal_strlit("peer");
    reveal_strlit("name");
    lemma_ns_distinct(k.0.0, k.1.0);
    let xa = ns_text(k.0.0);
    let xb = ns_text(k.1.0);
    let va = veth_text(k.0);
    let vb = veth_text(k.1);
    let a0 = seq!["ip"@, "-n"@, xa, "link"@, "add"@, va, "type"@, "veth"@, "peer"@, "name"@, vb];
    let a1 = seq!["ip"@, "-n"@, xa, "link"@, "set"@, vb, "netns"@, xb];
    let a2 = seq!["ip"@, "-n"@, xa, "link"@, "set"@, va, "up"@];
    let a3 = seq!["ip"@, "-n"@, xb, "link"@, "set"@, vb, "up"@];
    assert(action_cmds(ActionV::CreateLink(k)) == seq![a0, a1, a2, a3]);
    assert(a0.len() == 11 && a0[0] == "ip"@ && a0[1] == "-n"@ && a0[2] == xa && a0[3] == "link"@ && a0[4]
        == "add"@ && a0[5] == va && a0[6] == "type"@ && a0[7] == "veth"@ && a0[8] == "peer"@ && a0[9] == "name"@
        && a0[10] == vb);
    assert(a1.len() == 8 && a1[0] == "ip"@ && a1[1] == "-n"@ && a1[2] == xa && a1[3] == "link"@ && a1[4] == "set"@
        && a1[5] == vb && a1[6] == "netns"@ && a1[7] == xb);
    assert(a2.len() == 7 && a2[0] == "ip"@ && a2[1] == "-n"@ && a2[2] == xa && a2[3] == "link"@ && a2[4] == "set"@
        && a2[5] == va && a2[6] == "up"@);
    assert(a3.len() == 7 && a3[0] == "ip"@ && a3[1] == "-n"@ && a3[2] == xb && a3[3] == "link"@ && a3[4] == "set"@
        && a3[5] == vb && a3[6] == "up"@);
    let g1 = h.insert(xa, h[xa].insert(va).insert(vb));
    assert(ip_step(h, a0) == Some(g1));
    let g2 = g1.insert(xa, g1[xa].remove(vb)).insert(xb, g1[xb].insert(vb));
    assert(ip_step(g1, a1) == Some(g2));
    lemma_run2(h, a0, a1);
    assert(g2[xa].contains(va));
    assert(g2[xb].contains(vb));
    assert(ip_step(g2, a2) == Some(g2));
    assert(ip_step(g2, a3) == Some(g2));
    lemma_run2(g2, a2, a3);
    lemma_run4(h, a0, a1, a2, a3);
    let fin = h.insert(xa, h[xa].insert(va)).insert(xb, h[xb].insert(vb));
    assert(g2 =~= fin) by {
        assert(g1[xa].remove(vb) =~= h[xa].insert(va));
    }
}

/// Removing a link deletes its first end from the first node's
/// namespace; removing an interface deletes it from its node's namespace;
/// removing a node deletes its namespace.
pub proof fn law_remove_cmds(h: HostV, k: LinkKeyV, e: EndpointV, id: Seq<char>)
    ensures
        h.dom().contains(ns_text(k.0.0)) && h[ns_text(k.0.0)].contains(veth_text(k.0)) ==> ip_run(
            h,
            action_cmds(ActionV::RemoveLink(k)),
        ) == Some(h.insert(ns_text(k.0.0), h[ns_text(k.0.0)].remove(veth_text(k.0)))),
        h.dom().contains(ns_text(e.0)) && h[ns_text(e.0)].contains(e.1) ==> ip_run(
            h,
            action_cmds(ActionV::RemoveIface(e)),
        ) == Some(h.insert(ns_text(e.0), h[ns_text(e.0)].remove(e.1))),
        h.dom().contains(ns_text(id)) ==> ip_run(h, action_cmds(ActionV::RemoveNode(id))) == Some(
            h.remove(ns_text(id)),
        ),
{
    lemma_ip_words();
    reveal_strlit("link");
    let l = seq!["ip"@, "-n"@, ns_text(k.0.0), "link"@, "del"@, veth_text(k.0)];
    let f = seq!["ip"@, "-n"@, ns_text(e.0), "link"@, "del"@, e.1];
    let d = seq!["ip"@, "netns"@, "del"@, ns_text(id)];
    assert(action_cmds(ActionV::RemoveLink(k)) == seq![l]);
    assert(action_cmds(ActionV::RemoveIface(e)) == seq![f]);
    assert(action_cmds(ActionV::RemoveNode(id)) == seq![d]);
    assert(l.len() == 6 && l[0] == "ip"@ && l[1] == "-n"@ && l[2] == ns_text(k.0.0) && l[3] == "link"@ && l[4]
        == "del"@ && l[5] == veth_text(k.0));
    assert(f.len() == 6 && f[0] == "ip"@ && f[1] == "-n"@ && f[2] == ns_text(e.0) && f[3] == "link"@ && f[4]
        == "del"@ && f[5] == e.1);
    assert(d.len() == 4 && d[0] == "ip"@ && d[1] == "netns"@ && d[2] == "del"@ && d[3] == ns_text(id));
    lemma_run1(h, l);
    lemma_run1(h, f);
    lemma_run1(h, d);
}

/// The argument vectors of a list of commands.
pub open spec fn cmd_views(cmds: Seq<IpCommand>) -> Seq<Seq<Seq<char>>> {
    cmds.map_values(|c: IpCommand| argv_of(c))
}

/// A command is namespace scoped: `ip netns add|del rahn-*`, or
/// `ip -n rahn-* ...`.
pub open spec fn scoped(a: Seq<Seq<char>>) -> bool {
    &&& a.len() >= 1
    &&& a[0] == "ip"@
    &&& {
        ||| a.len() >= 4 && a[1] == "netns"@ && (a[2] == "add"@ || a[2] == "del"@) && starts_with(
            a[3],
            "rahn-"@,
        )
        ||| a.len() >= 3 && a[1] == "-n"@ && starts_with(a[2], "rahn-"@)
    }
}

/// Every command is namespace scoped.
pub open spec fn host_safe(cmds: Seq<Seq<Seq<char>>>) -> bool {
    forall|i: int| 0 <= i < cmds.len() ==> scoped(#[trigger] cmds[i])
}

/// Every interface name of the network fits the kernel's limit.
pub open spec fn names_fit(n: NetworkV) -> bool {
    forall|k: Seq<char>, j: Seq<char>|
        n.nodes.dom().contains(k) && #[trigger] n.nodes[k].interfaces.dom().contains(j) ==> sbytes(
            j,
        ).len() <= 15
}

proof fn lemma_ns_scoped(node: Seq<char>)
    ensures
        starts_with(ns_text(node), "rahn-"@),
{
    assert(ns_text(node).subrange(0, "rahn-"@.len() as int) =~= "rahn-"@);
}

proof fn lemma_action_cmds_safe(a: ActionV)
    ensures
        host_safe(action_cmds(a)),
{
    match a {
        ActionV::RemoveLink(k) => lemma_ns_scoped(k.0.0),
        ActionV::RemoveIface(e) => lemma_ns_scoped(e.0),
        ActionV::RemoveNode(id) => lemma_ns_scoped(id),
        ActionV::CreateNode(id) => lemma_ns_scoped(id),
        ActionV::CreateIface(e) => lemma_ns_scoped(e.0),
        ActionV::CreateLink(k) => {
            lemma_ns_scoped(k.0.0);
            lemma_ns_scoped(k.1.0);
        },
    }
}

proof fn lemma_plan_cmds_safe(acts: Seq<ActionV>)
    ensures
        host_safe(plan_cmds(acts)),
    decreases acts.len(),
{
    if acts.len() > 0 {
        lemma_plan_cmds_safe(acts.drop_last());
        lemma_action_cmds_safe(acts.last());
        let a = plan_cmds(acts.drop_last());
        let b = action_cmds(acts.last());
        assert forall|i: int| 0 <= i < (a + b).len() implies scoped(#[trigger] (a + b)[i]) by {
            if i < a.len() {
                assert((a + b)[i] == a[i]);
            } else {
                assert((a + b)[i] == b[i - a.len()]);
            }
        }
    }
}

/// Check one interface name against the kernel's limit.
pub fn check_iface_name(node: &str, name: &str) -> (r: Result<(), ExecError>)
    ensures
        r is Ok <==> sbytes(name@).len() <= 15,
        r matches Err(ExecError::InterfaceNameTooLong(s)) ==> s@ == node@ + "/"@ + name@,
{
    if name.as_bytes().len() > 15 {
        let mut s = owned(node);
        push_str(&mut s, "/");
        push_str(&mut s, name);
        return Err(ExecError::InterfaceNameTooLong(s));
    }
    Ok(())
}

fn push_cmd(cmds: &mut Vec<IpCommand>, args: Vec<String>)
    ensures
        cmd_views(final(cmds)@) == cmd_views(old(cmds)@).push(seq!["ip"@] + str_views(args@)),
{
    let c = IpCommand::new(args);
    let ghost before = cmds@;
    cmds.push(c);
    proof {
        assert(cmd_views(cmds@) =~= cmd_views(before).push(argv_of(c)));
    }
}

/// Append the commands realizing one action.
fn push_action_cmds(cmds: &mut Vec<IpCommand>, action: &Action)
    ensures
        cmd_views(final(cmds)@) == cmd_views(old(cmds)@) + action_cmds(action@),
{
    let ghost start = cmd_views(cmds@);
    let ghost acs = action_cmds(action@);
    match action {
        Action::RemoveLink { a, b: _ } => {
            let v = vec![owned("-n"), ns_name(a.node.as_str()), owned("link"), owned("del"), veth_name(a)];
            proof {
                assert(seq!["ip"@] + str_views(v@) =~= acs[0]);
            }
            push_cmd(cmds, v);
            proof {
                assert(cmd_views(cmds@) =~= start + acs);
            }
        },
        Action::RemoveInterface { node, name } => {
            let v = vec![owned("-n"), ns_name(node.as_str()), owned("link"), owned("del"), name.clone()];
            proof {
                assert(seq!["ip"@] + str_views(v@) =~= acs[0]);
            }
            push_cmd(cmds, v);
            proof {
                assert(cmd_views(cmds@) =~= start + acs);
            }
        },
        Action::RemoveNode { id } => {
            let v = vec![owned("netns"), owned("del"), ns_name(id.as_str())];
            proof {
                assert(seq!["ip"@] + str_views(v@) =~= acs[0]);
            }
            push_cmd(cmds, v);
            proof {
                assert(cmd_views(cmds@) =~= start + acs);
            }
        },
        Action::CreateNode { id } => {
            let v1 = vec![owned("netns"), owned("add"), ns_name(id.as_str())];
            let v2 = vec![owned("-n"), ns_name(id.as_str()), owned("link"), owned("set"), owned("lo"), owned("up")];
            proof {
                assert(seq!["ip"@] + str_views(v1@) =~= acs[0]);
                assert(seq!["ip"@] + str_views(v2@) =~= acs[1]);
            }
            push_cmd(cmds, v1);
            push_cmd(cmds, v2);
            proof {
                assert(cmd_views(cmds@) =~= start + acs);
            }
        },
        Action::CreateInterface { node, name } => {
            let v1 = vec![
                owned("-n"),
                ns_name(node.as_str()),
                owned("link"),
                owned("add"),
                name.clone(),
                owned("type"),
                owned("dummy"),
            ];
            let v2 = vec![owned("-n"), ns_name(node.as_str()), owned("link"), owned("set"), name.clone(), owned("up")];
            proof {
                assert(seq!["ip"@] + str_views(v1@) =~= acs[0]);
                assert(seq!["ip"@] + str_views(v2@) =~= acs[1]);
            }
            push_cmd(cmds, v1);
            push_cmd(cmds, v2);
            proof {
                assert(cmd_views(cmds@) =~= start + acs);
            }
        },
        Action::CreateLink { a, b } => {
            let v1 = vec![
                owned("-n"),
                ns_name(a.node.as_str()),
                owned("link"),
                owned("add"),
                veth_name(a),
                owned("type"),
                owned("veth"),
                owned("peer"),
                owned("name"),
                veth_name(b),
            ];
            let v2 = vec![
                owned("-n"),
                ns_name(a.node.as_str()),
                owned("link"),
                owned("set"),
                veth_name(b),
                owned("netns"),
                ns_name(b.node.as_str()),
            ];
            let v3 = vec![owned("-n"), ns_name(a.node.as_str()), owned("link"), owned("set"), veth_name(a), owned("up")];
            let v4 = vec![owned("-n"), ns_name(b.node.as_str()), owned("link"), owned("set"), veth_name(b), owned("up")];
            proof {
                assert(seq!["ip"@] + str_views(v1@) =~= acs[0]);
                assert(seq!["ip"@] + str_views(v2@) =~= acs[1]);
                assert(seq!["ip"@] + str_views(v3@) =~= acs[2]);
                assert(seq!["ip"@] + str_views(v4@) =~= acs[3]);
            }
            push_cmd(cmds, v1);
            push_cmd(cmds, v2);
            push_cmd(cmds, v3);
            push_cmd(cmds, v4);
            proof {
                assert(cmd_views(cmds@) =~= start + acs);
            }
        },
    }
}

/// Map the plan `current -> target` to namespace commands, after checking
/// every interface name of the target against the kernel's limit (before
/// any command is produced). Removals come first (links, interfaces,
/// nodes), then additions (nodes, interfaces, links), as in the plan.
pub fn commands_for(current: &Network, target: &Network) -> (r: Result<Vec<IpCommand>, ExecError>)
    requires
        current.wf(),
        target.wf(),
    ensures
        r is Ok <==> names_fit(target@),
        r matches Ok(cmds) ==> cmd_views(cmds@) == plan_cmds(plan_actions(current@, target@))
            && host_safe(cmd_views(cmds@)),
        r matches Err(ExecError::InterfaceNameTooLong(s)) ==> exists|e: EndpointV| #[trigger]
            iface_set(target@).contains(e) && sbytes(e.1).len() > 15 && s@ == e.0 + "/"@ + e.1,
        r matches Err(ExecError::InterfaceNameTooLong(s)) ==> exists|i: int|
            0 <= i < sorted_eps(iface_set(target@)).len() && sbytes(
                (#[trigger] sorted_eps(iface_set(target@))[i]).1,
            ).len() > 15 && s@ == sorted_eps(iface_set(target@))[i].0 + "/"@ + sorted_eps(
                iface_set(target@),
            )[i].1 && forall|j: int|
                0 <= j < i ==> sbytes(sorted_eps(iface_set(target@))[j].1).len() <= 15,
{
    let eps = endpoints(target);
    let ghost ev = pair_views(eps@);
    proof {
        lemma_sorted_enum_exists_for_ifaces(target);
    }
    let mut i: usize = 0;
    while i < eps.len()
        invariant
            ev == pair_views(eps@),
            ev == sorted_eps(iface_set(target@)),
            enumerates(ev, iface_set(target@)),
            i <= eps@.len(),
            forall|j: int| 0 <= j < i ==> sbytes((#[trigger] ev[j]).1).len() <= 15,
        decreases eps@.len() - i,
    {
        match check_iface_name(eps[i].0.as_str(), eps[i].1.as_str()) {
            Ok(()) => {},
            Err(e) => {
                proof {
                    assert(ev[i as int] == (eps@[i as int].0@, eps@[i as int].1@));
                    assert(ev.contains(ev[i as int]));
                    assert(iface_set(target@).contains(ev[i as int]));
                    assert(!names_fit(target@)) by {
                        let k = ev[i as int].0;
                        let j = ev[i as int].1;
                        assert(target@.nodes[k].interfaces.dom().contains(j));
                    }
                }
                return Err(e);
            },
        }
        i = i + 1;
    }
    proof {
        assert forall|k: Seq<char>, j: Seq<char>|
            target@.nodes.dom().contains(k) && #[trigger] target@.nodes[k].interfaces.dom().contains(j)
            implies sbytes(j).len() <= 15 by {
            assert(iface_set(target@).contains((k, j)));
            assert(ev.contains((k, j)));
            let x = choose|x: int| 0 <= x < ev.len() && ev[x] == (k, j);
            assert(sbytes(ev[x].1).len() <= 15);
        }
    }
    let p = plan(current, target);
    let acts = p.actions;
    let ghost av = action_views(acts@);
    let mut cmds: Vec<IpCommand> = Vec::new();
    let mut i: usize = 0;
    while i < acts.len()
        invariant
            av == action_views(acts@),
            i <= acts@.len(),
            cmd_views(cmds@) == plan_cmds(av.take(i as int)),
        decreases acts@.len() - i,
    {
        push_action_cmds(&mut cmds, &acts[i]);
        proof {
            assert(av.take(i + 1).drop_last() =~= av.take(i as int));
            assert(av.take(i + 1).last() == acts@[i as int]@);
        }
        i = i + 1;
    }
    proof {
        assert(av.take(acts@.len() as int) =~= av);
        lemma_plan_cmds_safe(av);
    }
    Ok(cmds)
}

/// The destroy commands of a network's nodes.
pub open spec fn destroy_cmds(ids: Seq<Seq<char>>) -> Seq<Seq<Seq<char>>> {
    ids.map_values(|id: Seq<char>| seq!["ip"@, "netns"@, "del"@, ns_text(id)])
}

/// Destroy commands for every node, in id order (a node's links and
/// interfaces go with its namespace).
pub fn destroy_commands(net: &Network) -> (r: Vec<IpCommand>)
    requires
        net.wf(),
    ensures
        cmd_views(r@) == destroy_cmds(sorted_strs(net@.nodes.dom())),
        host_safe(cmd_views(r@)),
{
    let none = Network::empty();
    let ids = missing_nodes(net, &none);
    proof {
        assert(net@.nodes.dom().difference(none@.nodes.dom()) =~= net@.nodes.dom());
    }
    let ghost iv = str_views(ids@);
    let mut cmds: Vec<IpCommand> = Vec::new();
    let mut i: usize = 0;
    while i < ids.len()
        invariant
            iv == str_views(ids@),
            i <= ids@.len(),
            cmd_views(cmds@) == destroy_cmds(iv.take(i as int)),
        decreases ids@.len() - i,
    {
        let v = vec![owned("netns"), owned("del"), ns_name(ids[i].as_str())];
        proof {
            assert(seq!["ip"@] + str_views(v@) =~= seq!["ip"@, "netns"@, "del"@, ns_text(iv[i as int])]);
        }
        push_cmd(&mut cmds, v);
        proof {
            assert(destroy_cmds(iv.take(i + 1)) =~= destroy_cmds(iv.take(i as int)).push(
                seq!["ip"@, "netns"@, "del"@, ns_text(iv[i as int])],
            ));
        }
        i = i + 1;
    }
    proof {
        assert(iv.take(ids@.len() as int) =~= iv);
        assert forall|j: int| 0 <= j < cmd_views(cmds@).len() implies scoped(#[trigger] cmd_views(cmds@)[j]) by {
            lemma_ns_scoped(iv[j]);
        }
    }
    cmds
}

/// Whether a string begins with `rahn-`.
fn has_ns_prefix(s: &str) -> (r: bool)
    ensures
        r == starts_with(s@, "rahn-"@),
{
    let b = s.as_bytes();
    proof {
        reveal_strlit("rahn-");
        reveal_strlit("rahn");
        reveal_strlit("-");
        vstd::utf8::is_ascii_chars_encode_utf8("rahn-"@);
        vstd::utf8::is_ascii_chars_encode_utf8("rahn"@);
        vstd::utf8::is_ascii_chars_encode_utf8("-"@);
        assert(b@ == sbytes(s@));
        if starts_with(s@, "rahn-"@) {
            assert(s@ =~= "rahn-"@ + s@.skip(5));
            lemma_sbytes_concat("rahn-"@, s@.skip(5));
            assert(b@[0] == 114u8 && b@[1] == 97u8 && b@[2] == 104u8 && b@[3] == 110u8 && b@[4] == 45u8);
        }
    }
    if b.len() >= 5 && b[0] == 114 && b[1] == 97 && b[2] == 104 && b[3] == 110 && b[4] == 45 {
        let (left, right) = split_around(s, 4);
        proof {
            assert(sbytes(left@) =~= sbytes("rahn"@));
            lemma_sbytes_injective(left@, "rahn"@);
            lemma_sbytes_concat("rahn"@, "-"@);
            lemma_sbytes_concat("rahn"@ + "-"@, right@);
            assert(sbytes("rahn"@ + "-"@ + right@) =~= sbytes(s@));
            lemma_sbytes_injective("rahn"@ + "-"@ + right@, s@);
            assert(s@.subrange(0, 5) =~= "rahn-"@);
        }
        true
    } else {
        false
    }
}

/// Whether one command is namespace scoped.
fn is_scoped(c: &IpCommand) -> (r: bool)
    ensures
        r == scoped(argv_of(*c)),
{
    let a = &c.args;
    proof {
        reveal_strlit("ip");
        reveal_strlit("netns");
        reveal_strlit("add");
        reveal_strlit("del");
        reveal_strlit("-n");
        assert(argv_of(*c).len() == a@.len());
        assert(forall|i: int| 0 <= i < a@.len() ==> argv_of(*c)[i] == (#[trigger] a@[i])@);
    }
    if a.len() < 1 || !str_eq(a[0].as_str(), "ip") {
        return false;
    }
    if a.len() >= 4 && str_eq(a[1].as_str(), "netns") && (str_eq(a[2].as_str(), "add") || str_eq(
        a[2].as_str(),
        "del",
    )) && has_ns_prefix(a[3].as_str()) {
        return true;
    }
    a.len() >= 3 && str_eq(a[1].as_str(), "-n") && has_ns_prefix(a[2].as_str())
}

/// Whether every command is namespace scoped: what must hold before any
/// of them is run on a host.
pub fn is_host_safe(cmds: &[IpCommand]) -> (r: bool)
    ensures
        r == host_safe(cmd_views(cmds@)),
{
    let mut i: usize = 0;
    while i < cmds.len()
        invariant
            i <= cmds@.len(),
            forall|j: int| 0 <= j < i ==> scoped(#[trigger] cmd_views(cmds@)[j]),
        decreases cmds@.len() - i,
    {
        if !is_scoped(&cmds[i]) {
            proof {
                assert(cmd_views(cmds@)[i as int] == argv_of(cmds@[i as int]));
            }
            return false;
        }
        proof {
            assert(cmd_views(cmds@)[i as int] == argv_of(cmds@[i as int]));
        }
        i = i + 1;
    }
    true
}

/// Structural host-safety check: every command must be namespace scoped
/// (`ip netns add|del rahn-*`, or `ip -n rahn-* ...`). Callers establish
/// it: `commands_for` and `destroy_commands` guarantee it of their output.
pub fn assert_host_safety(cmds: &[IpCommand])
    requires
        host_safe(cmd_views(cmds@)),
{
}

/// Isolated Linux network namespaces via iproute2.
pub struct LinuxNamespaceBackend;

/// A command as an `Invoke` step: program `ip`, then its arguments.
fn invoke(cmd: &IpCommand) -> (r: BackendStep)
    requires
        cmd.args@.len() >= 1,
    ensures
        r matches BackendStep::Invoke { program, args } && program@ == argv_of(*cmd)[0] && str_views(
            args@,
        ) == argv_of(*cmd).skip(1),
{
    let a = cmd.argv();
    let program = a[0].clone();
    let mut args: Vec<String> = Vec::new();
    let mut i: usize = 1;
    while i < a.len()
        invariant
            a@ == cmd.args@,
            1 <= i <= a@.len(),
            str_views(args@) == str_views(a@).subrange(1, i as int),
        decreases a@.len() - i,
    {
        let ghost before = args@;
        args.push(a[i].clone());
        proof {
            assert(str_views(args@) =~= str_views(before).push(a@[i as int]@));
            assert(str_views(a@).subrange(1, i + 1) =~= str_views(a@).subrange(1, i as int).push(
                a@[i as int]@,
            ));
        }
        i = i + 1;
    }
    proof {
        assert(str_views(a@).subrange(1, a@.len() as int) =~= str_views(a@).skip(1));
    }
    BackendStep::Invoke { program, args }
}

impl ExecutionBackend for LinuxNamespaceBackend {
    fn name(&self) -> (r: &'static str)
        ensures
            r@ == "linux-ns"@,
    {
        "linux-ns"
    }

    fn capabilities(&self) -> (r: Capabilities)
        ensures
            r.link_topology && !r.addressing && !r.traffic_control,
    {
        Capabilities { link_topology: true, addressing: false, traffic_control: false }
    }

    fn plan(&self, current: &Network, target: &Network) -> (r: Result<Vec<BackendStep>, BackendError>)
        ensures
            r is Ok <==> names_fit(target@),
            r matches Ok(steps) ==> steps@.len() == plan_cmds(plan_actions(current@, target@)).len()
                && forall|i: int| 0 <= i < steps@.len() ==> (#[trigger] steps@[i] matches BackendStep::Invoke {
                    program,
                    args,
                } && seq![program@] + str_views(args@) == plan_cmds(plan_actions(current@, target@))[i]),
    {
        let cmds = match commands_for(current, target) {
            Ok(c) => c,
            Err(e) => {
                return Err(BackendError::Plan(e.message()));
            },
        };
        let ghost cv = cmd_views(cmds@);
        let mut steps: Vec<BackendStep> = Vec::new();
        let mut i: usize = 0;
        while i < cmds.len()
            invariant
                cv == cmd_views(cmds@),
                host_safe(cv),
                i <= cmds@.len(),
                steps@.len() == i,
                forall|j: int| 0 <= j < i ==> (#[trigger] steps@[j] matches BackendStep::Invoke {
                    program,
                    args,
                } && seq![program@] + str_views(args@) == cv[j]),
            decreases cmds@.len() - i,
        {
            proof {
                assert(scoped(cv[i as int]));
                assert(cv[i as int] == argv_of(cmds@[i as int]));
            }
            let s = invoke(&cmds[i]);
            proof {
                assert(seq![argv_of(cmds@[i as int])[0]] + argv_of(cmds@[i as int]).skip(1) =~= argv_of(
                    cmds@[i as int],
                ));
            }
            steps.push(s);
            i = i + 1;
        }
        Ok(steps)
    }
}

} // verus!
