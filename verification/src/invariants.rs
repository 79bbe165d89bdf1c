//! The deterministic invariant engine.
//!
//! Structural invariants are checked first, always; then the constitution's
//! requirements in file order. Every invariant yields pass or fail with
//! evidence; "verified" means "all encoded invariants hold" and nothing more.
use vstd::prelude::*;
use crate::text::{owned, sbytes};
use crate::model::{Network, NetworkV, LinkKeyV, State, VerificationSummary, ep_lt, ep_text, pair_views, push_str};
use crate::identity::{StateId, sha256_spec, hex_bytes};
use crate::canonical::canon;
use crate::constitution::Constitution;
use crate::describe::{debug_str, debug_str_spec, decimal, decimal_text};
use crate::graph::{shortest_path, reachable, walk_between, lex_before, PathError};
use crate::diff::str_views;

verus! {

/// Identifier of the referential-integrity invariant.
pub const INV_REFERENTIAL_INTEGRITY: &'static str = "referential-integrity";

/// Identifier of the normalized-endpoints invariant.
pub const INV_LINK_ENDPOINTS: &'static str = "link-endpoints-exist";

/// Identifier of the no-duplicate-links invariant.
pub const INV_NO_DUPLICATE_LINKS: &'static str = "no-duplicate-links";

/// Identifier of the no-self-loops invariant.
pub const INV_NO_SELF_LOOPS: &'static str = "no-self-loops";

/// Prefix of required-connectivity invariant identifiers.
pub const INV_CONNECTIVITY: &'static str = "named-connectivity";

/// Prefix of prohibited-connectivity invariant identifiers.
pub const INV_NO_CONNECTIVITY: &'static str = "prohibited-connectivity";

/// Result of checking one invariant.
#[derive(Debug, Clone, PartialEq, Eq)]
pub struct InvariantReport {
    pub id: String,
    pub passed: bool,
    /// Empty when passed; a concrete description of the violation otherwise.
    pub evidence: String,
}

/// Full verification report over one state.
#[derive(Debug, Clone, PartialEq, Eq)]
pub struct VerificationReport {
    pub state_id: StateId,
    pub reports: Vec<InvariantReport>,
}

/// Every link's endpoints exist as interfaces.
pub open spec fn endpoints_exist(n: NetworkV) -> bool {
    forall|lk: LinkKeyV| #[trigger] n.links.dom().contains(lk) ==> n.has_endpoint(n.links[lk].a) && n.has_endpoint(n.links[lk].b)
}

/// Every link is stored with its endpoints in ascending order.
pub open spec fn endpoints_normalized(n: NetworkV) -> bool {
    forall|lk: LinkKeyV| #[trigger] n.links.dom().contains(lk) ==> ep_lt(n.links[lk].a, n.links[lk].b)
}

/// No link joins an interface to itself or two interfaces of one node.
pub open spec fn no_loops(n: NetworkV) -> bool {
    forall|lk: LinkKeyV| #[trigger]
        n.links.dom().contains(lk) ==> n.links[lk].a != n.links[lk].b && n.links[lk].a.0 != n.links[lk].b.0
}

/// A report with the given id and outcome, whose evidence is empty exactly
/// when it passed.
pub open spec fn report_is(r: InvariantReport, id: Seq<char>, passed: bool) -> bool {
    r.id@ == id && r.passed == passed && (passed <==> r.evidence@.len() == 0)
}

/// The evidence for a missing endpoint of a connectivity requirement.
pub open spec fn missing_text(a: Seq<char>, b: Seq<char>) -> Seq<char> {
    "endpoint missing: "@ + debug_str_spec(a) + " or "@ + debug_str_spec(b) + " not in network"@
}

/// Node names joined by ` -> `.
pub open spec fn arrow_joined(p: Seq<Seq<char>>) -> Seq<char>
    decreases p.len(),
{
    if p.len() == 0 {
        Seq::empty()
    } else if p.len() == 1 {
        p[0]
    } else {
        arrow_joined(p.drop_last()) + " -> "@ + p.last()
    }
}

/// The report on `require-connectivity a b`.
pub open spec fn connectivity_report(r: InvariantReport, n: NetworkV, a: Seq<char>, b: Seq<char>) -> bool {
    let both = n.nodes.dom().contains(a) && n.nodes.dom().contains(b);
    &&& r.id@ == INV_CONNECTIVITY@ + ":"@ + a + ":"@ + b
    &&& r.passed == (both && reachable(n, a, b))
    &&& (!both ==> r.evidence@ == missing_text(a, b))
    &&& (both && !reachable(n, a, b) ==> r.evidence@ == "no path between "@ + debug_str_spec(a)
        + " and "@ + debug_str_spec(b))
    &&& (r.passed ==> r.evidence@.len() == 0)
}

/// The report on `prohibit-connectivity a b`.
pub open spec fn prohibited_report(r: InvariantReport, n: NetworkV, a: Seq<char>, b: Seq<char>) -> bool {
    let both = n.nodes.dom().contains(a) && n.nodes.dom().contains(b);
    &&& r.id@ == INV_NO_CONNECTIVITY@ + ":"@ + a + ":"@ + b
    &&& r.passed == (both && !reachable(n, a, b))
    &&& (!both ==> r.evidence@ == missing_text(a, b))
    &&& (both && reachable(n, a, b) ==> exists|p: Seq<Seq<char>>|
        #[trigger] walk_between(n, p, a, b) && (forall|q: Seq<Seq<char>>|
            #[trigger] walk_between(n, q, a, b) ==> q.len() >= p.len() && (q.len() == p.len() && q != p
                ==> lex_before(p, q))) && r.evidence@ == "prohibited path exists: "@ + arrow_joined(p))
    &&& (r.passed ==> r.evidence@.len() == 0)
}

fn pass(id: String) -> (r: InvariantReport)
    ensures
        r.id@ == id@,
        r.passed,
        r.evidence@.len() == 0,
{
    InvariantReport { id, passed: true, evidence: String::new() }
}

fn fail(id: String, evidence: String) -> (r: InvariantReport)
    ensures
        r.id@ == id@,
        !r.passed,
        r.evidence@ == evidence@,
{
    InvariantReport { id, passed: false, evidence }
}

/// `a + x + b` for slices.
fn join3(a: &str, x: &str, b: &str) -> (r: String)
    ensures
        r@ == a@ + x@ + b@,
{
    let mut s = owned(a);
    push_str(&mut s, x);
    push_str(&mut s, b);
    s
}

fn check_referential_integrity(net: &Network) -> (r: InvariantReport)
    requires
        net.wf(),
    ensures
        report_is(r, INV_REFERENTIAL_INTEGRITY@, endpoints_exist(net@)),
{
    proof {
        net.lemma_orders();
        net.lemma_metadata_finite();
    }
    // Links are checked against their endpoints on construction; the check
    // re-establishes the guarantee rather than assuming it.
    let n = net.link_count();
    let mut i: usize = 0;
    while i < n
        invariant
            net.wf(),
            net@.valid(),
            n == net.link_keys().len(),
            i <= n,
            forall|x: int| 0 <= x < n ==> net@.links.dom().contains(#[trigger] net.link_keys()[x]),
        decreases n - i,
    {
        let l = net.link_at(i);
        proof {
            assert(net@.links.dom().contains(net.link_keys()[i as int]));
        }
        let a_ok = match net.node(l.a.node.as_str()) {
            Some(nd) => nd.interface(l.a.iface.as_str()).is_some(),
            None => false,
        };
        if !a_ok {
            let t = l.a.text();
            proof {
                reveal_strlit("link endpoint ");
            }
            return fail(owned(INV_REFERENTIAL_INTEGRITY), join3("link endpoint ", t.as_str(), " missing"));
        }
        let b_ok = match net.node(l.b.node.as_str()) {
            Some(nd) => nd.interface(l.b.iface.as_str()).is_some(),
            None => false,
        };
        if !b_ok {
            let t = l.b.text();
            proof {
                reveal_strlit("link endpoint ");
            }
            return fail(owned(INV_REFERENTIAL_INTEGRITY), join3("link endpoint ", t.as_str(), " missing"));
        }
        i = i + 1;
    }
    proof {
        assert(endpoints_exist(net@)) by {
            assert forall|lk: LinkKeyV| #[trigger] net@.links.dom().contains(lk) implies net@.has_endpoint(
                net@.links[lk].a,
            ) && net@.has_endpoint(net@.links[lk].b) by {
            }
        }
    }
    pass(owned(INV_REFERENTIAL_INTEGRITY))
}

fn link_pair_text(a: &crate::model::Endpoint, b: &crate::model::Endpoint) -> (r: String)
    ensures
        r@ == ep_text(a@) + " <-> "@ + ep_text(b@),
{
    let ta = a.text();
    let tb = b.text();
    join3(ta.as_str(), " <-> ", tb.as_str())
}

fn check_link_endpoints(net: &Network) -> (r: InvariantReport)
    requires
        net.wf(),
    ensures
        report_is(r, INV_LINK_ENDPOINTS@, endpoints_normalized(net@)),
{
    proof {
        net.lemma_orders();
        net.lemma_metadata_finite();
    }
    let n = net.link_count();
    let mut i: usize = 0;
    while i < n
        invariant
            net.wf(),
            net@.valid(),
            n == net.link_keys().len(),
            i <= n,
            forall|x: int| 0 <= x < n ==> net@.links.dom().contains(#[trigger] net.link_keys()[x]),
        decreases n - i,
    {
        let l = net.link_at(i);
        proof {
            assert(net@.links.dom().contains(net.link_keys()[i as int]));
        }
        if !crate::model::ep_less(&l.a, &l.b) {
            let t = link_pair_text(&l.a, &l.b);
            let ev = join3("link ", t.as_str(), " endpoints are not normalized");
            proof {
                reveal_strlit("link ");
            }
            return fail(owned(INV_LINK_ENDPOINTS), ev);
        }
        i = i + 1;
    }
    pass(owned(INV_LINK_ENDPOINTS))
}

fn check_no_duplicate_links(net: &Network) -> (r: InvariantReport)
    requires
        net.wf(),
    ensures
        report_is(r, INV_NO_DUPLICATE_LINKS@, true),
{
    // Links are keyed by their normalized endpoints, so two links with the
    // same endpoints cannot be represented.
    pass(owned(INV_NO_DUPLICATE_LINKS))
}

fn check_no_self_loops(net: &Network) -> (r: InvariantReport)
    requires
        net.wf(),
    ensures
        report_is(r, INV_NO_SELF_LOOPS@, no_loops(net@)),
{
    proof {
        net.lemma_orders();
        net.lemma_metadata_finite();
    }
    let n = net.link_count();
    let mut i: usize = 0;
    while i < n
        invariant
            net.wf(),
            net@.valid(),
            n == net.link_keys().len(),
            i <= n,
            forall|x: int| 0 <= x < n ==> net@.links.dom().contains(#[trigger] net.link_keys()[x]),
            forall|k: LinkKeyV| #[trigger] net@.links.dom().contains(k) ==> net.link_keys().contains(k),
            forall|x: int|
                0 <= x < i ==> net@.links[#[trigger] net.link_keys()[x]].a != net@.links[net.link_keys()[x]].b
                    && net@.links[net.link_keys()[x]].a.0 != net@.links[net.link_keys()[x]].b.0,
        decreases n - i,
    {
        let l = net.link_at(i);
        proof {
            assert(net@.links.dom().contains(net.link_keys()[i as int]));
        }
        let same = match crate::model::ep_compare(&l.a, &l.b) {
            crate::text::Compared::Equal => true,
            _ => false,
        };
        if same {
            let t = l.a.text();
            proof {
                reveal_strlit("self-loop on ");
            }
            return fail(owned(INV_NO_SELF_LOOPS), join3("self-loop on ", t.as_str(), ""));
        }
        if crate::text::str_eq(l.a.node.as_str(), l.b.node.as_str()) {
            let q = debug_str(l.a.node.as_str());
            proof {
                reveal_strlit("same-node loop on ");
            }
            return fail(owned(INV_NO_SELF_LOOPS), join3("same-node loop on ", q.as_str(), ""));
        }
        i = i + 1;
    }
    proof {
        assert forall|lk: LinkKeyV| #[trigger] net@.links.dom().contains(lk) implies net@.links[lk].a
            != net@.links[lk].b && net@.links[lk].a.0 != net@.links[lk].b.0 by {
            let x = choose|x: int| 0 <= x < net.link_keys().len() && net.link_keys()[x] == lk;
            assert(net@.links[net.link_keys()[x]].a != net@.links[net.link_keys()[x]].b);
        }
    }
    pass(owned(INV_NO_SELF_LOOPS))
}

/// Node names joined by ` -> `.
pub(crate) fn arrow_join(p: &Vec<String>) -> (r: String)
    ensures
        r@ == arrow_joined(str_views(p@)),
{
    let ghost pv = str_views(p@);
    let mut s = String::new();
    let mut i: usize = 0;
    while i < p.len()
        invariant
            i <= p@.len(),
            pv == str_views(p@),
            s@ == arrow_joined(pv.take(i as int)),
        decreases p@.len() - i,
    {
        if i > 0 {
            push_str(&mut s, " -> ");
        }
        push_str(&mut s, p[i].as_str());
        proof {
            let t = pv.take(i + 1);
            assert(t.drop_last() =~= pv.take(i as int));
            if i == 0 {
                assert(t.len() == 1);
                assert(s@ =~= t[0]);
            }
        }
        i = i + 1;
    }
    proof {
        assert(pv.take(p@.len() as int) =~= pv);
    }
    s
}

fn requirement_id(prefix: &str, a: &str, b: &str) -> (r: String)
    ensures
        r@ == prefix@ + ":"@ + a@ + ":"@ + b@,
{
    let mut s = owned(prefix);
    push_str(&mut s, ":");
    push_str(&mut s, a);
    push_str(&mut s, ":");
    push_str(&mut s, b);
    s
}

fn missing_evidence(a: &str, b: &str) -> (r: String)
    ensures
        r@ == missing_text(a@, b@),
{
    let mut s = owned("endpoint missing: ");
    let qa = debug_str(a);
    push_str(&mut s, qa.as_str());
    push_str(&mut s, " or ");
    let qb = debug_str(b);
    push_str(&mut s, qb.as_str());
    push_str(&mut s, " not in network");
    s
}

/// `require-connectivity a b`: a path must join the two nodes.
fn check_connectivity(net: &Network, a: &str, b: &str) -> (r: InvariantReport)
    requires
        net.wf(),
    ensures
        connectivity_report(r, net@, a@, b@),
{
    let id = requirement_id(INV_CONNECTIVITY, a, b);
    match shortest_path(net, a, b) {
        Err(PathError::EndpointMissing) => fail(id, missing_evidence(a, b)),
        Ok(None) => {
            let mut ev = owned("no path between ");
            let qa = debug_str(a);
            push_str(&mut ev, qa.as_str());
            push_str(&mut ev, " and ");
            let qb = debug_str(b);
            push_str(&mut ev, qb.as_str());
            proof {
                reveal_strlit("no path between ");
            }
            fail(id, ev)
        },
        Ok(Some(_)) => pass(id),
    }
}

/// `prohibit-connectivity a b`: no path may join the two nodes.
fn check_prohibited_connectivity(net: &Network, a: &str, b: &str) -> (r: InvariantReport)
    requires
        net.wf(),
    ensures
        prohibited_report(r, net@, a@, b@),
{
    let id = requirement_id(INV_NO_CONNECTIVITY, a, b);
    match shortest_path(net, a, b) {
        Err(PathError::EndpointMissing) => fail(id, missing_evidence(a, b)),
        Ok(None) => pass(id),
        Ok(Some(path)) => {
            let j = arrow_join(&path);
            let mut ev = owned("prohibited path exists: ");
            push_str(&mut ev, j.as_str());
            proof {
                reveal_strlit("prohibited path exists: ");
                let p = str_views(path@);
                assert(walk_between(net@, p, a@, b@));
            }
            fail(id, ev)
        },
    }
}

/// A walk stays a walk when links are added.
proof fn lemma_walk_more_links(n: NetworkV, m: NetworkV, p: Seq<Seq<char>>, a: Seq<char>, b: Seq<char>)
    requires
        n.nodes.dom() == m.nodes.dom(),
        n.links.dom().subset_of(m.links.dom()),
        walk_between(n, p, a, b),
    ensures
        walk_between(m, p, a, b),
{
    assert forall|i: int| 0 <= i < p.len() - 1 implies #[trigger] crate::graph::adjacent(m, p[i], p[i + 1]) by {
        assert(crate::graph::adjacent(n, p[i], p[i + 1]));
        let lk = choose|lk: LinkKeyV| #[trigger] n.links.dom().contains(lk) && crate::graph::link_joins(lk, p[i], p[i + 1]);
        assert(m.links.dom().contains(lk));
    }
    assert forall|i: int| 0 <= i < p.len() implies m.nodes.dom().contains(#[trigger] p[i]) by {
        assert(n.nodes.dom().contains(p[i]));
    }
}

/// Adding links never makes a connectivity requirement fail, and never
/// makes a prohibition pass: a requirement that passes on a network
/// passes on any network with the same nodes and more links, and a
/// prohibition that passes there passed before.
pub proof fn law_more_links_keep_connectivity(
    n: NetworkV,
    m: NetworkV,
    a: Seq<char>,
    b: Seq<char>,
    r1: InvariantReport,
    r2: InvariantReport,
)
    requires
        n.nodes.dom() == m.nodes.dom(),
        n.links.dom().subset_of(m.links.dom()),
    ensures
        connectivity_report(r1, n, a, b) && connectivity_report(r2, m, a, b) && r1.passed ==> r2.passed,
        prohibited_report(r1, n, a, b) && prohibited_report(r2, m, a, b) && r2.passed ==> r1.passed,
{
    if reachable(n, a, b) {
        let p = choose|p: Seq<Seq<char>>| #[trigger] walk_between(n, p, a, b);
        lemma_walk_more_links(n, m, p, a, b);
    }
}

/// The identifiers of the failed reports, in evaluation order.
pub open spec fn failed_id_views(rs: Seq<InvariantReport>) -> Seq<Seq<char>> {
    rs.filter(|r: InvariantReport| !r.passed).map_values(|r: InvariantReport| r.id@)
}

/// A network conforms to a constitution: its links are sound, every
/// required pair of nodes exists and is connected, and every prohibited
/// pair exists and is not.
pub open spec fn conforms(
    n: NetworkV,
    req: Seq<(Seq<char>, Seq<char>)>,
    proh: Seq<(Seq<char>, Seq<char>)>,
) -> bool {
    endpoints_exist(n) && endpoints_normalized(n) && no_loops(n) && (forall|i: int|
        0 <= i < req.len() ==> n.nodes.dom().contains(#[trigger] req[i].0) && n.nodes.dom().contains(
            req[i].1,
        ) && reachable(n, req[i].0, req[i].1)) && (forall|i: int|
        0 <= i < proh.len() ==> n.nodes.dom().contains(#[trigger] proh[i].0) && n.nodes.dom().contains(
            proh[i].1,
        ) && !reachable(n, proh[i].0, proh[i].1))
}

/// The parts of `conforms`, put together.
proof fn lemma_conforms_intro(n: NetworkV, req: Seq<(Seq<char>, Seq<char>)>, proh: Seq<(Seq<char>, Seq<char>)>)
    requires
        endpoints_exist(n),
        endpoints_normalized(n),
        no_loops(n),
        forall|i: int|
            0 <= i < req.len() ==> n.nodes.dom().contains(#[trigger] req[i].0) && n.nodes.dom().contains(
                req[i].1,
            ) && reachable(n, req[i].0, req[i].1),
        forall|i: int|
            0 <= i < proh.len() ==> n.nodes.dom().contains(#[trigger] proh[i].0) && n.nodes.dom().contains(
                proh[i].1,
            ) && !reachable(n, proh[i].0, proh[i].1),
    ensures
        conforms(n, req, proh),
{
}

/// The reports of a verification all pass exactly when the network
/// conforms to the constitution they were made from.
proof fn lemma_passed_iff_conforms(
    reports: Seq<InvariantReport>,
    n: NetworkV,
    conn: Seq<(String, String)>,
    proh: Seq<(String, String)>,
)
    requires
        reports.len() == 4 + conn.len() + proh.len(),
        report_is(reports[0], INV_REFERENTIAL_INTEGRITY@, endpoints_exist(n)),
        report_is(reports[1], INV_LINK_ENDPOINTS@, endpoints_normalized(n)),
        report_is(reports[2], INV_NO_DUPLICATE_LINKS@, true),
        report_is(reports[3], INV_NO_SELF_LOOPS@, no_loops(n)),
        forall|x: int|
            0 <= x < conn.len() ==> connectivity_report(#[trigger] reports[4 + x], n, conn[x].0@, conn[x].1@),
        forall|x: int|
            0 <= x < proh.len() ==> prohibited_report(
                #[trigger] reports[4 + conn.len() + x],
                n,
                proh[x].0@,
                proh[x].1@,
            ),
    ensures
        (forall|i: int| 0 <= i < reports.len() ==> (#[trigger] reports[i]).passed) <==> conforms(
            n,
            pair_views(conn),
            pair_views(proh),
        ),
{
    let req = pair_views(conn);
    let pr = pair_views(proh);
    let c = conn.len();
    if forall|k: int| 0 <= k < reports.len() ==> (#[trigger] reports[k]).passed {
        assert(reports[0].passed && reports[1].passed && reports[3].passed);
        assert forall|x: int| 0 <= x < req.len() implies n.nodes.dom().contains(#[trigger] req[x].0)
            && n.nodes.dom().contains(req[x].1) && reachable(n, req[x].0, req[x].1) by {
            assert(reports[4 + x].passed);
            assert(req[x] == (conn[x].0@, conn[x].1@));
        }
        assert forall|x: int| 0 <= x < pr.len() implies n.nodes.dom().contains(#[trigger] pr[x].0)
            && n.nodes.dom().contains(pr[x].1) && !reachable(n, pr[x].0, pr[x].1) by {
            assert(reports[4 + c + x].passed);
            assert(pr[x] == (proh[x].0@, proh[x].1@));
        }
        lemma_conforms_intro(n, req, pr);
    }
    if conforms(n, req, pr) {
        assert forall|k: int| 0 <= k < reports.len() implies (#[trigger] reports[k]).passed by {
            if k >= 4 && k < 4 + c {
                assert(req[k - 4] == (conn[k - 4].0@, conn[k - 4].1@));
                assert(n.nodes.dom().contains(req[k - 4].0));
                assert(connectivity_report(reports[4 + (k - 4)], n, conn[k - 4].0@, conn[k - 4].1@));
            } else if k >= 4 + c {
                assert(pr[k - 4 - c] == (proh[k - 4 - c].0@, proh[k - 4 - c].1@));
                assert(n.nodes.dom().contains(pr[k - 4 - c].0));
                assert(prohibited_report(reports[4 + c + (k - 4 - c)], n, proh[k - 4 - c].0@, proh[k - 4 - c].1@));
            } else if k == 0 {
                assert(reports[0].passed);
            } else if k == 1 {
                assert(reports[1].passed);
            } else if k == 2 {
                assert(reports[2].passed);
            } else {
                assert(k == 3);
                assert(reports[3].passed);
            }
        }
    }
}

/// `rep` is what verifying network `n` against `c` reports: the state id,
/// the four structural invariants in order, then one report per
/// connectivity requirement and one per prohibition, in the
/// constitution's order.
pub open spec fn is_report_of(rep: VerificationReport, n: NetworkV, c: Constitution) -> bool {
    &&& rep.state_id@ == sha256_spec(canon(n))
    &&& rep.reports@.len() == 4 + c.connectivity_requirements@.len() + c.prohibited_connectivity@.len()
    &&& report_is(rep.reports@[0], INV_REFERENTIAL_INTEGRITY@, endpoints_exist(n))
    &&& report_is(rep.reports@[1], INV_LINK_ENDPOINTS@, endpoints_normalized(n))
    &&& report_is(rep.reports@[2], INV_NO_DUPLICATE_LINKS@, true)
    &&& report_is(rep.reports@[3], INV_NO_SELF_LOOPS@, no_loops(n))
    &&& forall|i: int|
        0 <= i < c.connectivity_requirements@.len() ==> connectivity_report(
            #[trigger] rep.reports@[4 + i],
            n,
            c.connectivity_requirements@[i].0@,
            c.connectivity_requirements@[i].1@,
        )
    &&& forall|i: int|
        0 <= i < c.prohibited_connectivity@.len() ==> prohibited_report(
            #[trigger] rep.reports@[4 + c.connectivity_requirements@.len() + i],
            n,
            c.prohibited_connectivity@[i].0@,
            c.prohibited_connectivity@[i].1@,
        )
}

/// Verify a state against its structural invariants and the constitution.
///
/// Structural invariants are checked even when the constitution is empty:
/// they are the floor of validity, not configurable policy.
pub fn verify(state: &State, constitution: &Constitution) -> (rep: VerificationReport)
    requires
        state.network.wf(),
    ensures
        is_report_of(rep, state.network@, *constitution),
        rep.state_id@ == sha256_spec(canon(state.network@)),
        rep.reports@.len() == 4 + constitution.connectivity_requirements@.len()
            + constitution.prohibited_connectivity@.len(),
        report_is(rep.reports@[0], INV_REFERENTIAL_INTEGRITY@, endpoints_exist(state.network@)),
        report_is(rep.reports@[1], INV_LINK_ENDPOINTS@, endpoints_normalized(state.network@)),
        report_is(rep.reports@[2], INV_NO_DUPLICATE_LINKS@, true),
        report_is(rep.reports@[3], INV_NO_SELF_LOOPS@, no_loops(state.network@)),
        forall|i: int|
            0 <= i < constitution.connectivity_requirements@.len() ==> connectivity_report(
                #[trigger] rep.reports@[4 + i],
                state.network@,
                constitution.connectivity_requirements@[i].0@,
                constitution.connectivity_requirements@[i].1@,
            ),
        forall|i: int|
            0 <= i < constitution.prohibited_connectivity@.len() ==> prohibited_report(
                #[trigger] rep.reports@[4 + constitution.connectivity_requirements@.len() + i],
                state.network@,
                constitution.prohibited_connectivity@[i].0@,
                constitution.prohibited_connectivity@[i].1@,
            ),
        (forall|i: int| 0 <= i < rep.reports@.len() ==> (#[trigger] rep.reports@[i]).passed) <==> conforms(
            state.network@,
            pair_views(constitution.connectivity_requirements@),
            pair_views(constitution.prohibited_connectivity@),
        ),
{
    let net = &state.network;
    let mut reports: Vec<InvariantReport> = Vec::new();
    reports.push(check_referential_integrity(net));
    reports.push(check_link_endpoints(net));
    reports.push(check_no_duplicate_links(net));
    reports.push(check_no_self_loops(net));
    let conn = &constitution.connectivity_requirements;
    let mut i: usize = 0;
    while i < conn.len()
        invariant
            net.wf(),
            i <= conn@.len(),
            reports@.len() == 4 + i,
            report_is(reports@[0], INV_REFERENTIAL_INTEGRITY@, endpoints_exist(net@)),
            report_is(reports@[1], INV_LINK_ENDPOINTS@, endpoints_normalized(net@)),
            report_is(reports@[2], INV_NO_DUPLICATE_LINKS@, true),
            report_is(reports@[3], INV_NO_SELF_LOOPS@, no_loops(net@)),
            forall|x: int|
                0 <= x < i ==> connectivity_report(
                    #[trigger] reports@[4 + x],
                    net@,
                    conn@[x].0@,
                    conn@[x].1@,
                ),
        decreases conn@.len() - i,
    {
        let r = check_connectivity(net, conn[i].0.as_str(), conn[i].1.as_str());
        reports.push(r);
        i = i + 1;
    }
    let proh = &constitution.prohibited_connectivity;
    let ghost c = conn@.len();
    let mut j: usize = 0;
    while j < proh.len()
        invariant
            net.wf(),
            c == conn@.len(),
            j <= proh@.len(),
            reports@.len() == 4 + c + j,
            report_is(reports@[0], INV_REFERENTIAL_INTEGRITY@, endpoints_exist(net@)),
            report_is(reports@[1], INV_LINK_ENDPOINTS@, endpoints_normalized(net@)),
            report_is(reports@[2], INV_NO_DUPLICATE_LINKS@, true),
            report_is(reports@[3], INV_NO_SELF_LOOPS@, no_loops(net@)),
            forall|x: int|
                0 <= x < c ==> connectivity_report(
                    #[trigger] reports@[4 + x],
                    net@,
                    conn@[x].0@,
                    conn@[x].1@,
                ),
            forall|x: int|
                0 <= x < j ==> prohibited_report(
                    #[trigger] reports@[4 + c + x],
                    net@,
                    proh@[x].0@,
                    proh@[x].1@,
                ),
        decreases proh@.len() - j,
    {
        let r = check_prohibited_connectivity(net, proh[j].0.as_str(), proh[j].1.as_str());
        reports.push(r);
        j = j + 1;
    }
    let rep = VerificationReport { state_id: StateId::of(state), reports };
    proof {
        lemma_passed_iff_conforms(rep.reports@, net@, conn@, proh@);
        assert(is_report_of(rep, net@, *constitution));
    }
    rep
}

impl VerificationReport {
    /// Every invariant passed.
    pub fn passed(&self) -> (r: bool)
        ensures
            r == forall|i: int| 0 <= i < self.reports@.len() ==> (#[trigger] self.reports@[i]).passed,
    {
        let mut i: usize = 0;
        while i < self.reports.len()
            invariant
                i <= self.reports@.len(),
                forall|x: int| 0 <= x < i ==> (#[trigger] self.reports@[x]).passed,
            decreases self.reports@.len() - i,
        {
            if !self.reports[i].passed {
                return false;
            }
            i = i + 1;
        }
        true
    }

    /// Identifiers of failed invariants, in evaluation order.
    pub fn failed_ids(&self) -> (r: Vec<String>)
        ensures
            str_views(r@) == failed_id_views(self.reports@),
    {
        let ghost rs = self.reports@;
        let ghost p = |r: InvariantReport| !r.passed;
        let mut out: Vec<String> = Vec::new();
        let mut i: usize = 0;
        while i < self.reports.len()
            invariant
                i <= rs.len(),
                rs == self.reports@,
                p == (|r: InvariantReport| !r.passed),
                str_views(out@) == failed_id_views(rs.take(i as int)),
            decreases rs.len() - i,
        {
            proof {
                crate::seqs::lemma_take_filter(rs, i as int, p);
            }
            if !self.reports[i].passed {
                let ghost before = out@;
                out.push(self.reports[i].id.clone());
                proof {
                    assert(str_views(out@) =~= str_views(before).push(rs[i as int].id@));
                    assert(failed_id_views(rs.take(i + 1)) =~= failed_id_views(rs.take(i as int)).push(
                        rs[i as int].id@,
                    ));
                }
            } else {
                proof {
                    assert(failed_id_views(rs.take(i + 1)) =~= failed_id_views(rs.take(i as int)));
                }
            }
            i = i + 1;
        }
        proof {
            assert(rs.take(rs.len() as int) =~= rs);
        }
        out
    }

    /// Compact summary for durable storage in commit records.
    pub fn summary(&self) -> (r: VerificationSummary)
        ensures
            r.passed == forall|i: int| 0 <= i < self.reports@.len() ==> (#[trigger] self.reports@[i]).passed,
            r.passed ==> r.failed_invariants@.len() == 0,
            !r.passed ==> str_views(r.failed_invariants@) == failed_id_views(self.reports@),
    {
        if self.passed() {
            VerificationSummary::passed()
        } else {
            VerificationSummary::failed(self.failed_ids())
        }
    }
}

/// The one-line text of a report.
pub open spec fn report_line(r: InvariantReport) -> Seq<char> {
    if r.passed {
        "PASS "@ + r.id@
    } else {
        "FAIL "@ + r.id@ + " \u{2014} "@ + r.evidence@
    }
}

/// The indented report lines, one per report.
pub open spec fn report_lines(rs: Seq<InvariantReport>) -> Seq<char>
    decreases rs.len(),
{
    if rs.len() == 0 {
        Seq::empty()
    } else {
        report_lines(rs.drop_last()) + "  "@ + report_line(rs.last()) + "\n"@
    }
}

/// The full text of a verification report whose state id reads `hex`.
pub open spec fn report_text(hex: Seq<char>, rs: Seq<InvariantReport>) -> Seq<char> {
    let n = decimal(rs.len());
    "state "@ + hex + "\n"@ + report_lines(rs) + if forall|i: int|
        0 <= i < rs.len() ==> (#[trigger] rs[i]).passed {
        "verification PASSED ("@ + n + " invariants)\n"@
    } else {
        "verification FAILED ("@ + decimal(failed_id_views(rs).len()) + " of "@ + n
            + " invariants)\n"@
    }
}

impl InvariantReport {
    /// `PASS <id>` or `FAIL <id> — <evidence>`.
    pub fn line(&self) -> (r: String)
        ensures
            r@ == report_line(*self),
    {
        if self.passed {
            let s = join3("PASS ", self.id.as_str(), "");
            proof {
                reveal_strlit("");
                assert(s@ =~= "PASS "@ + self.id@);
            }
            s
        } else {
            let mut s = join3("FAIL ", self.id.as_str(), " \u{2014} ");
            push_str(&mut s, self.evidence.as_str());
            s
        }
    }
}

impl VerificationReport {
    /// The report as text, one line per invariant and a verdict.
    pub fn text(&self) -> (r: String)
        ensures
            exists|h: Seq<char>| sbytes(h) == hex_bytes(self.state_id@) && r@ == report_text(h, self.reports@),
    {
        let hex = self.state_id.as_hex();
        let mut s = join3("state ", hex.as_str(), "\n");
        let ghost rs = self.reports@;
        let mut i: usize = 0;
        proof {
            assert(rs.take(0) =~= Seq::<InvariantReport>::empty());
        }
        while i < self.reports.len()
            invariant
                i <= rs.len(),
                rs == self.reports@,
                s@ == "state "@ + hex@ + "\n"@ + report_lines(rs.take(i as int)),
            decreases rs.len() - i,
        {
            let l = self.reports[i].line();
            push_str(&mut s, "  ");
            push_str(&mut s, l.as_str());
            push_str(&mut s, "\n");
            proof {
                assert(rs.take(i + 1).drop_last() =~= rs.take(i as int));
            }
            i = i + 1;
        }
        proof {
            assert(rs.take(rs.len() as int) =~= rs);
        }
        let n = decimal_text(self.reports.len());
        if self.passed() {
            push_str(&mut s, "verification PASSED (");
            push_str(&mut s, n.as_str());
            push_str(&mut s, " invariants)\n");
        } else {
            let k = decimal_text(self.failed_ids().len());
            push_str(&mut s, "verification FAILED (");
            push_str(&mut s, k.as_str());
            push_str(&mut s, " of ");
            push_str(&mut s, n.as_str());
            push_str(&mut s, " invariants)\n");
        }
        s
    }
}

} // verus!
