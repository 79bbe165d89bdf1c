//! Deterministic graph queries over the node graph induced by interface
//! links: two nodes are adjacent when any of their interfaces is linked.
//!
//! Traversal order is fully determined by the network's total order:
//! neighbours are visited in ascending order, breadth first.
use vstd::prelude::*;
use crate::text::{group_str_order, str_lt, str_eq};
use crate::canonical::{sorted_strs, str_order_fn, lemma_str_strict};
use crate::diff::str_views;
use crate::seqs::{sorted_by, enumerates, lemma_sorted_enum};
use crate::model::{Network, NetworkV, LinkKeyV};
use crate::seqs::lemma_take_contains;

verus! {

broadcast use group_str_order;

/// The link key joins nodes `x` and `y` (in either direction).
pub open spec fn link_joins(lk: LinkKeyV, x: Seq<char>, y: Seq<char>) -> bool {
    (lk.0.0 == x && lk.1.0 == y) || (lk.0.0 == y && lk.1.0 == x)
}

/// Some link joins nodes `x` and `y`.
pub open spec fn adjacent(n: NetworkV, x: Seq<char>, y: Seq<char>) -> bool {
    exists|lk: LinkKeyV| #[trigger] n.links.dom().contains(lk) && link_joins(lk, x, y)
}

/// A walk: one or more existing nodes, each adjacent to the next.
pub open spec fn is_walk(n: NetworkV, p: Seq<Seq<char>>) -> bool {
    &&& p.len() >= 1
    &&& forall|i: int| 0 <= i < p.len() ==> n.nodes.dom().contains(#[trigger] p[i])
    &&& forall|i: int| 0 <= i < p.len() - 1 ==> #[trigger] adjacent(n, p[i], p[i + 1])
}

/// `p` is a walk from `x` to `y`.
pub open spec fn walk_between(n: NetworkV, p: Seq<Seq<char>>, x: Seq<char>, y: Seq<char>) -> bool {
    is_walk(n, p) && p[0] == x && p[p.len() - 1] == y
}

/// Some walk leads from `x` to `y`.
pub open spec fn reachable(n: NetworkV, x: Seq<char>, y: Seq<char>) -> bool {
    exists|p: Seq<Seq<char>>| #[trigger] walk_between(n, p, x, y)
}

/// Strictly ascending indices.
pub open spec fn ascending(s: Seq<usize>) -> bool {
    forall|a: int, b: int| 0 <= a < b < s.len() ==> #[trigger] s[a] < #[trigger] s[b]
}

/// Insert into a strictly ascending vector, keeping it so (no duplicates).
fn insert_sorted(v: &mut Vec<usize>, x: usize)
    requires
        ascending(old(v)@),
    ensures
        ascending(final(v)@),
        forall|y: usize| #[trigger] final(v)@.contains(y) <==> (old(v)@.contains(y) || y == x),
{
    let mut p: usize = 0;
    while p < v.len() && v[p] < x
        invariant
            p <= v@.len(),
            v@ == old(v)@,
            ascending(v@),
            forall|a: int| 0 <= a < p ==> #[trigger] v@[a] < x,
        decreases v@.len() - p,
    {
        p = p + 1;
    }
    if p < v.len() && v[p] == x {
        return;
    }
    let ghost o = v@;
    v.insert(p, x);
    proof {
        let w = v@;
        assert(w =~= o.insert(p as int, x));
        assert forall|a: int, b: int| 0 <= a < b < w.len() implies #[trigger] w[a] < #[trigger] w[b] by {
            if b < p {
                assert(w[a] == o[a] && w[b] == o[b]);
            } else if b == p {
                assert(w[a] == o[a]);
            } else if a < p {
                assert(w[a] == o[a] && w[b] == o[b - 1]);
                assert(o[b - 1] >= x) by {
                    if b - 1 > p {
                        assert(o[p as int] < o[b - 1]);
                    }
                }
            } else if a == p {
                assert(w[b] == o[b - 1]);
                assert(o[b - 1] >= x) by {
                    if b - 1 > p {
                        assert(o[p as int] < o[b - 1]);
                    }
                }
                assert(o[b - 1] != x) by {
                    if b - 1 > p {
                        assert(o[p as int] < o[b - 1]);
                        assert(o[p as int] >= x);
                    }
                }
            } else {
                assert(w[a] == o[a - 1] && w[b] == o[b - 1]);
            }
        }
        assert forall|y: usize| #[trigger] w.contains(y) <==> (o.contains(y) || y == x) by {
            if w.contains(y) {
                let k = choose|k: int| 0 <= k < w.len() && w[k] == y;
                if k < p {
                    assert(o[k] == y);
                } else if k > p {
                    assert(o[k - 1] == y);
                }
            }
            if o.contains(y) {
                let k = choose|k: int| 0 <= k < o.len() && o[k] == y;
                if k < p {
                    assert(w[k] == y);
                } else {
                    assert(w[k + 1] == y);
                }
            }
            if y == x {
                assert(w[p as int] == x);
            }
        }
    }
}

/// The indices (in id order) of the neighbours of node `i`, ascending.
fn neighbor_indices(net: &Network, i: usize) -> (r: Vec<usize>)
    requires
        net.wf(),
        i < net.node_ids().len(),
    ensures
        ascending(r@),
        forall|j: int| 0 <= j < r@.len() ==> #[trigger] r@[j] < net.node_ids().len(),
        forall|j: int|
            0 <= j < net.node_ids().len() ==> (r@.contains(j as usize) <==> adjacent(
                net@,
                net.node_ids()[i as int],
                #[trigger] net.node_ids()[j],
            )),
{
    proof {
        net.lemma_orders();
        net.lemma_metadata_finite();
    }
    let ghost ids = net.node_ids();
    let ghost keys = net.link_keys();
    let node = net.node_at(i);
    let id = node.id_ref();
    let nl = net.link_count();
    let nn = net.node_count();
    let mut nb: Vec<usize> = Vec::new();
    let mut k: usize = 0;
    while k < nl
        invariant
            net.wf(),
            net@.valid(),
            ids == net.node_ids(),
            keys == net.link_keys(),
            nl == keys.len(),
            nn == ids.len(),
            i < ids.len(),
            id@ == ids[i as int],
            k <= nl,
            ascending(nb@),
            forall|j: int| 0 <= j < nb@.len() ==> #[trigger] nb@[j] < ids.len(),
            forall|j: int|
                0 <= j < ids.len() ==> (nb@.contains(j as usize) <==> exists|x: int|
                    0 <= x < k && link_joins(keys[x], ids[i as int], #[trigger] ids[j])),
            forall|x: int| 0 <= x < keys.len() ==> net@.links.dom().contains(#[trigger] keys[x]),
            forall|x: int, y: int| 0 <= x < y < ids.len() ==> str_lt(#[trigger] ids[x], #[trigger] ids[y]),
        decreases nl - k,
    {
        let l = net.link_at(k);
        let ghost lk = keys[k as int];
        let ghost nb0 = nb@;
        proof {
            assert(net@.links.dom().contains(lk));
            assert(net@.has_endpoint(lk.0) && net@.has_endpoint(lk.1));
        }
        let ma = str_eq(l.a.node.as_str(), id.as_str());
        let ia = net.node_index(l.b.node.as_str());
        if ma {
            match ia {
                Some(j) => {
                    insert_sorted(&mut nb, j);
                },
                None => {},
            }
        }
        let ghost nb1 = nb@;
        let mb = str_eq(l.b.node.as_str(), id.as_str());
        let ib = net.node_index(l.a.node.as_str());
        if mb {
            match ib {
                Some(j) => {
                    insert_sorted(&mut nb, j);
                },
                None => {},
            }
        }
        proof {
            let ja = ia->0;
            let jb = ib->0;
            assert(ids[ja as int] == lk.1.0);
            assert(ids[jb as int] == lk.0.0);
            assert forall|y: usize| #[trigger] nb@.contains(y) <==> (nb0.contains(y) || (ma && y == ja) || (mb
                && y == jb)) by {
            }
            assert forall|j: int| 0 <= j < nb@.len() implies #[trigger] nb@[j] < ids.len() by {
                assert(nb@.contains(nb@[j]));
                if nb0.contains(nb@[j]) {
                    let z = choose|z: int| 0 <= z < nb0.len() && nb0[z] == nb@[j];
                    assert(nb0[z] < ids.len());
                }
            }
            assert forall|j: int| 0 <= j < ids.len() implies (nb@.contains(j as usize) <==> exists|x: int|
                0 <= x < k + 1 && link_joins(keys[x], ids[i as int], #[trigger] ids[j])) by {
                let jj = j as usize;
                assert(jj == ja <==> ids[j] == lk.1.0) by {
                    if ids[j] == ids[ja as int] && j != ja {
                        if j < ja {
                            assert(str_lt(ids[j], ids[ja as int]));
                        } else {
                            assert(str_lt(ids[ja as int], ids[j]));
                        }
                    }
                }
                assert(jj == jb <==> ids[j] == lk.0.0) by {
                    if ids[j] == ids[jb as int] && j != jb {
                        if j < jb {
                            assert(str_lt(ids[j], ids[jb as int]));
                        } else {
                            assert(str_lt(ids[jb as int], ids[j]));
                        }
                    }
                }
                if exists|x: int| 0 <= x < k + 1 && link_joins(keys[x], ids[i as int], #[trigger] ids[j]) {
                    let x = choose|x: int| 0 <= x < k + 1 && link_joins(keys[x], ids[i as int], #[trigger] ids[j]);
                    if x < k {
                        assert(nb0.contains(jj));
                    } else {
                        assert(keys[x] == lk);
                    }
                }
                if nb@.contains(jj) {
                    if nb0.contains(jj) {
                        let x = choose|x: int| 0 <= x < k && link_joins(keys[x], ids[i as int], #[trigger] ids[j]);
                        assert(0 <= x < k + 1 && link_joins(keys[x], ids[i as int], ids[j]));
                    } else {
                        assert(link_joins(keys[k as int], ids[i as int], ids[j]));
                    }
                }
            }
        }
        k = k + 1;
    }
    proof {
        assert forall|j: int| 0 <= j < ids.len() implies (nb@.contains(j as usize) <==> adjacent(
            net@,
            ids[i as int],
            #[trigger] ids[j],
        )) by {
            if adjacent(net@, ids[i as int], ids[j]) {
                let lk = choose|lk: LinkKeyV| #[trigger] net@.links.dom().contains(lk) && link_joins(lk, ids[i as int], ids[j]);
                let x = choose|x: int| 0 <= x < keys.len() && keys[x] == lk;
                assert(link_joins(keys[x], ids[i as int], ids[j]));
            }
            if nb@.contains(j as usize) {
                let x = choose|x: int| 0 <= x < nl && link_joins(keys[x], ids[i as int], #[trigger] ids[j]);
                assert(net@.links.dom().contains(keys[x]));
            }
        }
    }
    nb
}

/// The adjacency lists' views.
pub open spec fn adj_view(adj: Seq<Vec<usize>>) -> Seq<Seq<usize>> {
    adj.map_values(|v: Vec<usize>| v@)
}

/// An edge of an index graph given by adjacency lists.
pub open spec fn iedge(a: Seq<Seq<usize>>, x: int, y: int) -> bool {
    0 <= x < a.len() && 0 <= y < a.len() && a[x].contains(y as usize)
}

/// A walk in an index graph.
pub open spec fn ipath(a: Seq<Seq<usize>>, p: Seq<int>) -> bool {
    &&& p.len() >= 1
    &&& forall|k: int| 0 <= k < p.len() ==> 0 <= #[trigger] p[k] < a.len()
    &&& forall|k: int| 0 <= k < p.len() - 1 ==> #[trigger] iedge(a, p[k], p[k + 1])
}

/// A walk from `s` to `t` in an index graph.
pub open spec fn ipath_between(a: Seq<Seq<usize>>, p: Seq<int>, s: int, t: int) -> bool {
    ipath(a, p) && p[0] == s && p[p.len() - 1] == t
}

/// `t` is at most `d` steps from `s`.
pub open spec fn within(a: Seq<Seq<usize>>, s: int, t: int, d: int) -> bool {
    exists|p: Seq<int>| #[trigger] ipath_between(a, p, s, t) && p.len() <= d + 1
}

/// `t` can be reached from `s`.
pub open spec fn ireach(a: Seq<Seq<usize>>, s: int, t: int) -> bool {
    exists|p: Seq<int>| #[trigger] ipath_between(a, p, s, t)
}

proof fn lemma_within_zero(a: Seq<Seq<usize>>, s: int, t: int)
    requires
        0 <= s < a.len(),
    ensures
        within(a, s, t, 0) <==> t == s,
{
    if t == s {
        let p = seq![s];
        assert(ipath_between(a, p, s, t));
    }
}

proof fn lemma_within_extend(a: Seq<Seq<usize>>, s: int, u: int, t: int, d: int)
    requires
        within(a, s, u, d),
        iedge(a, u, t),
    ensures
        within(a, s, t, d + 1),
{
    let p = choose|p: Seq<int>| #[trigger] ipath_between(a, p, s, u) && p.len() <= d + 1;
    let q = p.push(t);
    assert(ipath_between(a, q, s, t)) by {
        assert forall|k: int| 0 <= k < q.len() - 1 implies #[trigger] iedge(a, q[k], q[k + 1]) by {
            if k < p.len() - 1 {
                assert(q[k] == p[k] && q[k + 1] == p[k + 1]);
                assert(iedge(a, p[k], p[k + 1]));
            }
        }
        assert forall|k: int| 0 <= k < q.len() implies 0 <= #[trigger] q[k] < a.len() by {
            if k < p.len() {
                assert(q[k] == p[k]);
            }
        }
    }
}

proof fn lemma_within_split(a: Seq<Seq<usize>>, s: int, t: int, d: int)
    requires
        d >= 0,
        within(a, s, t, d + 1),
        !within(a, s, t, d),
    ensures
        exists|u: int| within(a, s, u, d) && #[trigger] iedge(a, u, t),
{
    let p = choose|p: Seq<int>| #[trigger] ipath_between(a, p, s, t) && p.len() <= d + 2;
    assert(p.len() == d + 2);
    let q = p.drop_last();
    let u = q[q.len() - 1];
    assert(ipath_between(a, q, s, u)) by {
        assert forall|k: int| 0 <= k < q.len() - 1 implies #[trigger] iedge(a, q[k], q[k + 1]) by {
            assert(iedge(a, p[k], p[k + 1]));
        }
        assert forall|k: int| 0 <= k < q.len() implies 0 <= #[trigger] q[k] < a.len() by {
            assert(q[k] == p[k]);
        }
    }
    assert(iedge(a, p[p.len() - 2], p[p.len() - 1]));
    assert(within(a, s, u, d));
}

proof fn lemma_within_mono(a: Seq<Seq<usize>>, s: int, t: int, d: int, e: int)
    requires
        within(a, s, t, d),
        d <= e,
    ensures
        within(a, s, t, e),
{
    let p = choose|p: Seq<int>| #[trigger] ipath_between(a, p, s, t) && p.len() <= d + 1;
    assert(ipath_between(a, p, s, t) && p.len() <= e + 1);
}

/// If one more step reaches nothing new, every reachable node is within `d`.
proof fn lemma_closed(a: Seq<Seq<usize>>, s: int, d: int, t: int)
    requires
        d >= 0,
        forall|x: int| #[trigger] within(a, s, x, d + 1) ==> within(a, s, x, d),
        ireach(a, s, t),
    ensures
        within(a, s, t, d),
{
    let p = choose|p: Seq<int>| #[trigger] ipath_between(a, p, s, t);
    lemma_within_upto(a, s, d, p.len() - 1, t);
    assert(within(a, s, t, p.len() - 1));
}

proof fn lemma_within_upto(a: Seq<Seq<usize>>, s: int, d: int, k: int, t: int)
    requires
        d >= 0,
        k >= 0,
        forall|x: int| #[trigger] within(a, s, x, d + 1) ==> within(a, s, x, d),
        within(a, s, t, k),
    ensures
        within(a, s, t, d),
    decreases k,
{
    if k <= d {
        lemma_within_mono(a, s, t, k, d);
    } else if within(a, s, t, k - 1) {
        lemma_within_upto(a, s, d, k - 1, t);
    } else {
        lemma_within_split(a, s, t, k - 1);
        let u = choose|u: int| within(a, s, u, k - 1) && #[trigger] iedge(a, u, t);
        lemma_within_upto(a, s, d, k - 1, u);
        lemma_within_extend(a, s, u, t, d);
    }
}

/// `t` is a neighbour of one of the first `f` frontier nodes, or of node
/// `f` among its first `k` neighbours.
spec fn covered(a: Seq<Seq<usize>>, fr: Seq<usize>, f: int, k: int, t: int) -> bool {
    (exists|g: int| 0 <= g < f && #[trigger] iedge(a, fr[g] as int, t)) || (0 <= f < fr.len()
        && a[fr[f] as int].take(k).contains(t as usize))
}

/// The adjacency lists are well formed: every entry names a node.
pub open spec fn adj_ok(adj: Seq<Vec<usize>>) -> bool {
    forall|i: int, j: int|
        0 <= i < adj.len() && 0 <= j < adj[i]@.len() ==> #[trigger] adj[i]@[j] < adj.len()
}

/// Distance and parent facts of a breadth-first search from `s`.
pub open spec fn bfs_facts(
    a: Seq<Seq<usize>>,
    s: int,
    visited: Seq<bool>,
    dist: Seq<usize>,
    parent: Seq<usize>,
) -> bool {
    let n = a.len();
    &&& visited.len() == n && dist.len() == n && parent.len() == n
    &&& dist[s] == 0
    &&& forall|t: int|
        0 <= t < n && #[trigger] visited[t] ==> within(a, s, t, dist[t] as int) && (dist[t] > 0
            ==> !within(a, s, t, dist[t] - 1))
    &&& forall|t: int|
        0 <= t < n && #[trigger] visited[t] && t != s ==> parent[t] < n && visited[parent[t] as int]
            && iedge(a, parent[t] as int, t) && dist[parent[t] as int] + 1 == dist[t]
}

/// Level-by-level breadth-first search from `s`, neighbours in list order.
fn bfs(adj: &Vec<Vec<usize>>, s: usize) -> (r: (Vec<bool>, Vec<usize>, Vec<usize>))
    requires
        s < adj@.len(),
        adj_ok(adj@),
    ensures
        bfs_facts(adj_view(adj@), s as int, r.0@, r.1@, r.2@),
        forall|t: int| 0 <= t < adj@.len() ==> (r.0@[t] <==> ireach(adj_view(adj@), s as int, t)),
{
    let n = adj.len();
    let ghost a = adj_view(adj@);
    let mut visited: Vec<bool> = Vec::new();
    let mut dist: Vec<usize> = Vec::new();
    let mut parent: Vec<usize> = Vec::new();
    let mut i: usize = 0;
    while i < n
        invariant
            i <= n,
            visited@.len() == i,
            dist@.len() == i,
            parent@.len() == i,
            forall|t: int| 0 <= t < i ==> !#[trigger] visited@[t],
            forall|t: int| 0 <= t < i ==> #[trigger] dist@[t] == 0,
        decreases n - i,
    {
        visited.push(false);
        dist.push(0);
        parent.push(0);
        i = i + 1;
    }
    visited.set(s, true);
    let mut frontier: Vec<usize> = Vec::new();
    frontier.push(s);
    let mut d: usize = 0;
    let ghost mut vs: Set<int> = set![s as int];
    let mut unvisited: usize = n - 1;
    proof {
        lemma_within_zero(a, s as int, s as int);
        assert forall|t: int| 0 <= t < n implies (visited@[t] <==> within(a, s as int, t, 0)) by {
            lemma_within_zero(a, s as int, t);
        }
        assert forall|t: int| 0 <= t < n implies (frontier@.contains(t as usize) <==> within(
            a,
            s as int,
            t,
            0,
        )) by {
            lemma_within_zero(a, s as int, t);
            if t == s {
                assert(frontier@[0] == s);
            }
        }
        assert(vs =~= Set::new(|t: int| 0 <= t < n && visited@[t]));
        assert forall|t: int| 0 <= t < n && #[trigger] visited@[t] implies t == s && dist@[t] == 0 by {
        }
        assert(a.len() == n);
        assert(dist@[s as int] == 0);
        assert(bfs_facts(a, s as int, visited@, dist@, parent@));
    }
    while frontier.len() > 0
        invariant
            a == adj_view(adj@),
            n == adj@.len(),
            s < n,
            adj_ok(adj@),
            visited@.len() == n,
            dist@.len() == n,
            parent@.len() == n,
            d <= n,
            forall|t: int| 0 <= t < n ==> (#[trigger] visited@[t] <==> within(a, s as int, t, d as int)),
            forall|t: int|
                0 <= t < n ==> (frontier@.contains(t as usize) <==> (within(a, s as int, t, d as int) && (d
                    > 0 ==> !within(a, s as int, t, d - 1)))),
            forall|f: int| 0 <= f < frontier@.len() ==> #[trigger] frontier@[f] < n,
            forall|t: int| 0 <= t < n && #[trigger] visited@[t] ==> dist@[t] <= d,
            bfs_facts(a, s as int, visited@, dist@, parent@),
            vs == Set::new(|t: int| 0 <= t < n && visited@[t]),
            vs.finite(),
            vs.len() + unvisited == n,
            frontier@.len() > 0 ==> vs.len() >= d + 1,
        decreases 2 * unvisited + (if frontier@.len() > 0 {
            1int
        } else {
            0int
        }),
    {
        proof {
            vstd::set_lib::lemma_int_range(0, n as int);
            vstd::set_lib::lemma_len_subset(vs, vstd::set_lib::set_int_range(0, n as int));
        }
        let ghost visited0 = visited@;
        let ghost dist0 = dist@;
        let ghost parent0 = parent@;
        let ghost vs0 = vs;
        let ghost fr = frontier@;
        let mut next: Vec<usize> = Vec::new();
        let mut f: usize = 0;
        while f < frontier.len()
            invariant
                a == adj_view(adj@),
                n == adj@.len(),
                s < n,
                adj_ok(adj@),
                fr == frontier@,
                f <= fr.len(),
                visited@.len() == n,
                dist@.len() == n,
                parent@.len() == n,
                d < n,
                forall|x: int| 0 <= x < fr.len() ==> #[trigger] fr[x] < n,
                forall|t: int|
                    0 <= t < n ==> (fr.contains(t as usize) <==> (within(a, s as int, t, d as int) && (d > 0
                        ==> !within(a, s as int, t, d - 1)))),
                forall|t: int|
                    0 <= t < n ==> (#[trigger] visited@[t] <==> (within(a, s as int, t, d as int) || covered(
                        a,
                        fr,
                        f as int,
                        0,
                        t,
                    ))),
                forall|t: int|
                    0 <= t < n ==> (next@.contains(t as usize) <==> (visited@[t] && !within(
                        a,
                        s as int,
                        t,
                        d as int,
                    ))),
                forall|x: int| 0 <= x < next@.len() ==> #[trigger] next@[x] < n,
                forall|t: int|
                    0 <= t < n && visited0[t] ==> dist@[t] == dist0[t] && parent@[t] == parent0[t]
                        && visited@[t],
                forall|t: int|
                    0 <= t < n && #[trigger] visited@[t] && !visited0[t] ==> dist@[t] == d + 1
                        && fr.contains(parent@[t]) && iedge(a, parent@[t] as int, t),
                forall|t: int| 0 <= t < n ==> (visited0[t] <==> within(a, s as int, t, d as int)),
                bfs_facts(a, s as int, visited0, dist0, parent0),
                forall|t: int| 0 <= t < n && #[trigger] visited0[t] ==> dist0[t] <= d,
                vs == Set::new(|t: int| 0 <= t < n && visited@[t]),
                vs.finite(),
                vs.len() + unvisited == n,
                vs0.len() + next@.len() <= vs.len(),
                vs0 == Set::new(|t: int| 0 <= t < n && visited0[t]),
            decreases fr.len() - f,
        {
            let u = frontier[f];
            let nb = &adj[u];
            let mut k: usize = 0;
            proof {
                assert(adj@[u as int]@ == a[u as int]);
            }
            while k < nb.len()
                invariant
                    a == adj_view(adj@),
                    n == adj@.len(),
                    s < n,
                    adj_ok(adj@),
                    fr == frontier@,
                    f < fr.len(),
                    u == fr[f as int],
                    u < n,
                    nb@ == a[u as int],
                    k <= nb@.len(),
                    visited@.len() == n,
                    dist@.len() == n,
                    parent@.len() == n,
                    d < n,
                    forall|x: int| 0 <= x < fr.len() ==> #[trigger] fr[x] < n,
                    forall|t: int|
                        0 <= t < n ==> (#[trigger] visited@[t] <==> (within(a, s as int, t, d as int)
                            || covered(a, fr, f as int, k as int, t))),
                    forall|t: int|
                        0 <= t < n ==> (next@.contains(t as usize) <==> (visited@[t] && !within(
                            a,
                            s as int,
                            t,
                            d as int,
                        ))),
                    forall|x: int| 0 <= x < next@.len() ==> #[trigger] next@[x] < n,
                    forall|t: int|
                        0 <= t < n && visited0[t] ==> dist@[t] == dist0[t] && parent@[t] == parent0[t]
                            && visited@[t],
                    forall|t: int|
                        0 <= t < n && #[trigger] visited@[t] && !visited0[t] ==> dist@[t] == d + 1
                            && fr.contains(parent@[t]) && iedge(a, parent@[t] as int, t),
                    forall|t: int| 0 <= t < n ==> (visited0[t] <==> within(a, s as int, t, d as int)),
                    vs == Set::new(|t: int| 0 <= t < n && visited@[t]),
                    vs.finite(),
                    vs.len() + unvisited == n,
                    vs0.len() + next@.len() <= vs.len(),
                    vs0 == Set::new(|t: int| 0 <= t < n && visited0[t]),
                decreases nb@.len() - k,
            {
                let v = nb[k];
                proof {
                    assert(adj@[u as int]@[k as int] < n);
                    assert(a[u as int].take(k + 1) =~= a[u as int].take(k as int).push(v));
                    assert(iedge(a, u as int, v as int)) by {
                        assert(a[u as int][k as int] == v);
                    }
                }
                if !visited[v] {
                    proof {
                        assert(!vs.contains(v as int));
                        vstd::set_lib::lemma_int_range(0, n as int);
                        vstd::set_lib::lemma_len_subset(vs, vstd::set_lib::set_int_range(0, n as int).remove(v as int));
                    }
                    let ghost nx0 = next@;
                    let ghost vis_before = visited@;
                    proof {
                        assert(!within(a, s as int, v as int, d as int));
                    }
                    visited.set(v, true);
                    dist.set(v, d + 1);
                    parent.set(v, u);
                    next.push(v);
                    unvisited = unvisited - 1;
                    proof {
                        vs = vs.insert(v as int);
                        assert(vs =~= Set::new(|t: int| 0 <= t < n && visited@[t]));
                        assert forall|t: int| 0 <= t < n implies (next@.contains(t as usize) <==> (visited@[t]
                            && !within(a, s as int, t, d as int))) by {
                            if t == v {
                                assert(next@[next@.len() - 1] == v);
                            } else {
                                assert(visited@[t] == vis_before[t]);
                                if next@.contains(t as usize) {
                                    let x = choose|x: int| 0 <= x < next@.len() && next@[x] == t as usize;
                                    if x < nx0.len() {
                                        assert(nx0[x] == t as usize);
                                    }
                                }
                                if nx0.contains(t as usize) {
                                    let x = choose|x: int| 0 <= x < nx0.len() && nx0[x] == t as usize;
                                    assert(next@[x] == t as usize);
                                }
                            }
                        }
                        assert(fr.contains(u)) by {
                            assert(fr[f as int] == u);
                        }
                    }
                }
                proof {
                    assert forall|t: int| 0 <= t < n implies (#[trigger] visited@[t] <==> (within(
                        a,
                        s as int,
                        t,
                        d as int,
                    ) || covered(a, fr, f as int, k + 1, t))) by {
                        lemma_take_contains(a[u as int], k as int, t as usize);
                    }
                }
                k = k + 1;
            }
            proof {
                assert forall|t: int| 0 <= t < n implies (#[trigger] visited@[t] <==> (within(
                    a,
                    s as int,
                    t,
                    d as int,
                ) || covered(a, fr, f + 1, 0, t))) by {
                    assert(a[u as int].take(nb@.len() as int) =~= a[u as int]);
                    if a[u as int].contains(t as usize) {
                        assert(iedge(a, fr[f as int] as int, t));
                    }
                    if iedge(a, fr[f as int] as int, t) {
                        assert(a[u as int].take(nb@.len() as int).contains(t as usize));
                    }
                    if (exists|g: int| 0 <= g < f + 1 && #[trigger] iedge(a, fr[g] as int, t)) {
                        let g = choose|g: int| 0 <= g < f + 1 && #[trigger] iedge(a, fr[g] as int, t);
                        if g < f {
                            assert(covered(a, fr, f as int, nb@.len() as int, t));
                        }
                    }
                }
            }
            f = f + 1;
        }
        proof {
            // the new visited set is exactly `within(d + 1)`
            assert forall|t: int| 0 <= t < n implies (#[trigger] visited@[t] <==> within(
                a,
                s as int,
                t,
                d + 1,
            )) by {
                if visited@[t] {
                    if within(a, s as int, t, d as int) {
                        lemma_within_mono(a, s as int, t, d as int, d + 1);
                    } else {
                        let g = choose|g: int| 0 <= g < fr.len() && #[trigger] iedge(a, fr[g] as int, t);
                        assert(fr.contains(fr[g]));
                        lemma_within_extend(a, s as int, fr[g] as int, t, d as int);
                    }
                }
                if within(a, s as int, t, d + 1) && !within(a, s as int, t, d as int) {
                    lemma_within_split(a, s as int, t, d as int);
                    let w = choose|w: int| within(a, s as int, w, d as int) && #[trigger] iedge(a, w, t);
                    if d > 0 && within(a, s as int, w, d - 1) {
                        lemma_within_extend(a, s as int, w, t, d - 1);
                    } else {
                        if d == 0 {
                            lemma_within_zero(a, s as int, w);
                        }
                        assert(fr.contains(w as usize));
                        let g = choose|g: int| 0 <= g < fr.len() && fr[g] == w as usize;
                        assert(iedge(a, fr[g] as int, t));
                    }
                }
            }
            assert forall|t: int| 0 <= t < n implies (next@.contains(t as usize) <==> (within(
                a,
                s as int,
                t,
                d + 1,
            ) && (d + 1 > 0 ==> !within(a, s as int, t, d as int)))) by {
                assert(visited@[t] <==> within(a, s as int, t, d + 1));
            }
            // the distance and parent facts still hold
            assert(bfs_facts(a, s as int, visited@, dist@, parent@)) by {
                assert forall|t: int| 0 <= t < n && #[trigger] visited@[t] implies within(
                    a,
                    s as int,
                    t,
                    dist@[t] as int,
                ) && (dist@[t] > 0 ==> !within(a, s as int, t, dist@[t] - 1)) by {
                    if !visited0[t] {
                        let w = parent@[t];
                        assert(fr.contains(w));
                        let g = choose|g: int| 0 <= g < fr.len() && fr[g] == w;
                        lemma_within_extend(a, s as int, w as int, t, d as int);
                    }
                }
                assert forall|t: int| 0 <= t < n && #[trigger] visited@[t] && t != s implies parent@[t] < n
                    && visited@[parent@[t] as int] && iedge(a, parent@[t] as int, t) && dist@[parent@[t] as int]
                    + 1 == dist@[t] by {
                    if !visited0[t] {
                        let w = parent@[t];
                        let g = choose|g: int| 0 <= g < fr.len() && fr[g] == w;
                        assert(fr[g] < n);
                        assert(visited0[w as int]);
                        assert(dist0[w as int] == d) by {
                            if dist0[w as int] < d {
                                lemma_within_mono(a, s as int, w as int, dist0[w as int] as int, d - 1);
                            }
                        }
                    } else {
                        assert(visited0[parent0[t] as int]);
                    }
                }
                if !visited0[s as int] {
                    lemma_within_zero(a, s as int, s as int);
                    lemma_within_mono(a, s as int, s as int, 0, d as int);
                }
            }
            assert forall|t: int| 0 <= t < n && #[trigger] visited@[t] implies dist@[t] <= d + 1 by {
                if visited0[t] {
                    assert(dist0[t] <= d);
                }
            }
        }
        let ghost nxt = next@;
        frontier = next;
        proof {
            if frontier@.len() > 0 {
                assert(vs.len() >= d + 2) by {
                    assert(vs0.len() >= d + 1) by {
                        assert(fr.len() > 0);
                    }
                }
            }
            assert(d + 1 <= n) by {
                vstd::set_lib::lemma_int_range(0, n as int);
                vstd::set_lib::lemma_len_subset(vs0, vstd::set_lib::set_int_range(0, n as int));
            }
        }
        let ghost d1: int = d + 1;
        proof {
            assert forall|t: int| 0 <= t < n implies (nxt.contains(t as usize) <==> (within(
                a,
                s as int,
                t,
                d1,
            ) && (d1 > 0 ==> !within(a, s as int, t, d1 - 1)))) by {
                assert(nxt.contains(t as usize) <==> (visited@[t] && !within(a, s as int, t, d as int)));
                assert(visited@[t] <==> within(a, s as int, t, d + 1));
            }
        }
        d = d + 1;
    }
    proof {
        assert(d > 0) by {
            if d == 0 {
                lemma_within_zero(a, s as int, s as int);
                assert(frontier@.contains(s));
            }
        }
        assert forall|x: int| #[trigger] within(a, s as int, x, d as int) implies within(a, s as int, x, d - 1) by {
            let p = choose|p: Seq<int>| #[trigger] ipath_between(a, p, s as int, x) && p.len() <= d + 1;
            assert(0 <= x < n);
            if !within(a, s as int, x, d - 1) {
                assert(frontier@.contains(x as usize));
            }
        }
        assert forall|t: int| 0 <= t < n implies (visited@[t] <==> ireach(a, s as int, t)) by {
            if ireach(a, s as int, t) {
                lemma_closed(a, s as int, d - 1, t);
                lemma_within_mono(a, s as int, t, d - 1, d as int);
            }
            if visited@[t] {
                let p = choose|p: Seq<int>| #[trigger] ipath_between(a, p, s as int, t) && p.len() <= d + 1;
                assert(ipath_between(a, p, s as int, t));
            }
        }
    }
    (visited, dist, parent)
}

/// The node graph as adjacency lists over positions in id order.
fn index_adjacency(net: &Network) -> (r: Vec<Vec<usize>>)
    requires
        net.wf(),
    ensures
        r@.len() == net.node_ids().len(),
        adj_ok(r@),
        forall|i: int| 0 <= i < r@.len() ==> ascending(#[trigger] r@[i]@),
        forall|i: int, j: int|
            0 <= i < r@.len() && 0 <= j < r@.len() ==> (iedge(adj_view(r@), i, j) <==> adjacent(
                net@,
                #[trigger] net.node_ids()[i],
                #[trigger] net.node_ids()[j],
            )),
        index_graph(net@, net.node_ids(), adj_view(r@)),
{
    let n = net.node_count();
    proof {
        net.lemma_orders();
    }
    let mut adj: Vec<Vec<usize>> = Vec::new();
    let mut i: usize = 0;
    while i < n
        invariant
            net.wf(),
            n == net.node_ids().len(),
            i <= n,
            adj@.len() == i,
            forall|x: int, y: int| 0 <= x < i && 0 <= y < adj@[x]@.len() ==> #[trigger] adj@[x]@[y] < n,
            forall|x: int| 0 <= x < i ==> ascending(#[trigger] adj@[x]@),
            forall|x: int, j: int|
                0 <= x < i && 0 <= j < n ==> (adj@[x]@.contains(j as usize) <==> adjacent(
                    net@,
                    #[trigger] net.node_ids()[x],
                    #[trigger] net.node_ids()[j],
                )),
        decreases n - i,
    {
        let nb = neighbor_indices(net, i);
        adj.push(nb);
        i = i + 1;
    }
    proof {
        assert forall|x: int, j: int| 0 <= x < adj@.len() && 0 <= j < adj@.len() implies (iedge(
            adj_view(adj@),
            x,
            j,
        ) <==> adjacent(net@, #[trigger] net.node_ids()[x], #[trigger] net.node_ids()[j])) by {
            assert(adj_view(adj@)[x] == adj@[x]@);
        }
    }
    adj
}

/// Positions in id order name distinct nodes.
proof fn lemma_ids_distinct(ids: Seq<Seq<char>>, x: int, y: int)
    requires
        forall|a: int, b: int| 0 <= a < b < ids.len() ==> str_lt(#[trigger] ids[a], #[trigger] ids[b]),
        0 <= x < ids.len(),
        0 <= y < ids.len(),
        ids[x] == ids[y],
    ensures
        x == y,
{
    if x < y {
        assert(str_lt(ids[x], ids[y]));
    } else if y < x {
        assert(str_lt(ids[y], ids[x]));
    }
}

/// The facts about a network's id order and adjacency that connect walks
/// over names with paths over positions.
pub open spec fn index_graph(n: NetworkV, ids: Seq<Seq<char>>, a: Seq<Seq<usize>>) -> bool {
    &&& a.len() == ids.len()
    &&& forall|x: int| 0 <= x < ids.len() ==> n.nodes.dom().contains(#[trigger] ids[x])
    &&& forall|k: Seq<char>| #[trigger] n.nodes.dom().contains(k) ==> ids.contains(k)
    &&& forall|x: int, y: int| 0 <= x < y < ids.len() ==> str_lt(#[trigger] ids[x], #[trigger] ids[y])
    &&& forall|x: int, y: int|
        0 <= x < a.len() && 0 <= y < a.len() ==> (iedge(a, x, y) <==> adjacent(
            n,
            #[trigger] ids[x],
            #[trigger] ids[y],
        ))
}

/// A walk over names gives a path over positions of the same length.
proof fn lemma_walk_to_path(n: NetworkV, ids: Seq<Seq<char>>, a: Seq<Seq<usize>>, p: Seq<Seq<char>>, s: int, t: int)
    requires
        index_graph(n, ids, a),
        0 <= s < ids.len(),
        0 <= t < ids.len(),
        walk_between(n, p, ids[s], ids[t]),
    ensures
        exists|q: Seq<int>| #[trigger] ipath_between(a, q, s, t) && q.len() == p.len() && forall|k: int|
            0 <= k < q.len() ==> ids[#[trigger] q[k]] == p[k],
{
    let q = Seq::new(p.len(), |k: int| choose|x: int| 0 <= x < ids.len() && ids[x] == p[k]);
    assert forall|k: int| 0 <= k < p.len() implies 0 <= #[trigger] q[k] < ids.len() && ids[q[k]] == p[k] by {
        assert(n.nodes.dom().contains(p[k]));
        assert(ids.contains(p[k]));
    }
    assert(q[0] == s) by {
        lemma_ids_distinct(ids, q[0], s);
    }
    assert(q[q.len() - 1] == t) by {
        lemma_ids_distinct(ids, q[q.len() - 1], t);
    }
    assert forall|k: int| 0 <= k < q.len() - 1 implies #[trigger] iedge(a, q[k], q[k + 1]) by {
        assert(adjacent(n, p[k], p[k + 1]));
        assert(ids[q[k]] == p[k] && ids[q[k + 1]] == p[k + 1]);
    }
    assert(ipath_between(a, q, s, t));
}

/// Edges of an index graph of a network go both ways.
proof fn lemma_iedge_sym(n: NetworkV, ids: Seq<Seq<char>>, a: Seq<Seq<usize>>, x: int, y: int)
    requires
        index_graph(n, ids, a),
        iedge(a, x, y),
    ensures
        iedge(a, y, x),
{
    assert(adjacent(n, ids[x], ids[y]));
    let lk = choose|lk: LinkKeyV| #[trigger] n.links.dom().contains(lk) && link_joins(lk, ids[x], ids[y]);
    assert(link_joins(lk, ids[y], ids[x]));
    assert(adjacent(n, ids[y], ids[x]));
}

/// Walking a path backwards from position `k` to position `j` adds
/// `k - j` steps to the distance from `t`.
proof fn lemma_within_back(
    n: NetworkV,
    ids: Seq<Seq<char>>,
    a: Seq<Seq<usize>>,
    t: int,
    q: Seq<int>,
    k: int,
    j: int,
    d: int,
)
    requires
        index_graph(n, ids, a),
        ipath(a, q),
        0 <= j <= k < q.len(),
        within(a, t, q[k], d),
    ensures
        within(a, t, q[j], d + k - j),
    decreases k - j,
{
    if j < k {
        assert(iedge(a, q[j], q[j + 1]));
        lemma_iedge_sym(n, ids, a, q[j], q[j + 1]);
        lemma_within_back(n, ids, a, t, q, k, j + 1, d);
        lemma_within_extend(a, t, q[j + 1], q[j], d + k - j - 1);
    }
}

/// After a search from `t`, a node within `e` steps is visited at a
/// distance of at most `e`.
proof fn lemma_dist_at_most(
    a: Seq<Seq<usize>>,
    t: int,
    vis: Seq<bool>,
    dist: Seq<usize>,
    parent: Seq<usize>,
    x: int,
    e: int,
)
    requires
        bfs_facts(a, t, vis, dist, parent),
        forall|y: int| 0 <= y < a.len() ==> (vis[y] <==> ireach(a, t, y)),
        0 <= x < a.len(),
        within(a, t, x, e),
    ensures
        vis[x],
        dist[x] <= e,
{
    let p = choose|p: Seq<int>| #[trigger] ipath_between(a, p, t, x) && p.len() <= e + 1;
    assert(ireach(a, t, x));
    assert(vis[x]);
    assert(dist[x] > 0 ==> !within(a, t, x, dist[x] - 1));
    assert(e >= 0);
    if e < dist[x] {
        lemma_within_mono(a, t, x, e, dist[x] - 1);
    }
}

/// Along a shortest path from `s` to `t`, position `k` lies exactly
/// `dist[s] - k` steps from `t`.
proof fn lemma_shortest_levels(
    n: NetworkV,
    ids: Seq<Seq<char>>,
    a: Seq<Seq<usize>>,
    t: int,
    vis: Seq<bool>,
    dist: Seq<usize>,
    parent: Seq<usize>,
    q: Seq<int>,
    s: int,
)
    requires
        index_graph(n, ids, a),
        bfs_facts(a, t, vis, dist, parent),
        forall|y: int| 0 <= y < a.len() ==> (vis[y] <==> ireach(a, t, y)),
        ipath_between(a, q, s, t),
        vis[s],
        q.len() == dist[s] + 1,
    ensures
        forall|k: int| 0 <= k < q.len() ==> vis[#[trigger] q[k]] && dist[q[k]] == dist[s] - k,
{
    let last = q.len() - 1;
    lemma_within_zero(a, t, t);
    assert forall|k: int| 0 <= k < q.len() implies vis[#[trigger] q[k]] && dist[q[k]] == dist[s] - k by {
        lemma_within_back(n, ids, a, t, q, last, k, 0);
        lemma_dist_at_most(a, t, vis, dist, parent, q[k], last - k);
        assert(within(a, t, q[k], dist[q[k]] as int));
        lemma_within_back(n, ids, a, t, q, k, 0, dist[q[k]] as int);
        lemma_dist_at_most(a, t, vis, dist, parent, s, dist[q[k]] + k);
    }
}

/// A path over positions gives a walk over names of the same length.
proof fn lemma_path_to_walk(n: NetworkV, ids: Seq<Seq<char>>, a: Seq<Seq<usize>>, q: Seq<int>, s: int, t: int)
    requires
        index_graph(n, ids, a),
        ipath_between(a, q, s, t),
    ensures
        walk_between(n, q.map_values(|x: int| ids[x]), ids[s], ids[t]),
{
    let p = q.map_values(|x: int| ids[x]);
    assert forall|k: int| 0 <= k < p.len() - 1 implies #[trigger] adjacent(n, p[k], p[k + 1]) by {
        assert(iedge(a, q[k], q[k + 1]));
        assert(0 <= q[k] < a.len() && 0 <= q[k + 1] < a.len());
    }
    assert forall|k: int| 0 <= k < p.len() implies n.nodes.dom().contains(#[trigger] p[k]) by {
        assert(0 <= q[k] < a.len());
    }
}

/// Reachability over names agrees with reachability over positions.
proof fn lemma_reach_agrees(n: NetworkV, ids: Seq<Seq<char>>, a: Seq<Seq<usize>>, s: int, t: int)
    requires
        index_graph(n, ids, a),
        0 <= s < ids.len(),
        0 <= t < ids.len(),
    ensures
        reachable(n, ids[s], ids[t]) <==> ireach(a, s, t),
{
    if reachable(n, ids[s], ids[t]) {
        let p = choose|p: Seq<Seq<char>>| #[trigger] walk_between(n, p, ids[s], ids[t]);
        lemma_walk_to_path(n, ids, a, p, s, t);
    }
    if ireach(a, s, t) {
        let q = choose|q: Seq<int>| #[trigger] ipath_between(a, q, s, t);
        lemma_path_to_walk(n, ids, a, q, s, t);
    }
}

/// The names at the marked positions among the first `upto`.
spec fn marked_names(ids: Seq<Seq<char>>, marks: Seq<bool>, upto: int) -> Set<Seq<char>> {
    Set::new(|y: Seq<char>| exists|t: int| 0 <= t < upto && #[trigger] marks[t] && ids[t] == y)
}

/// The ids at the marked positions, ascending.
fn collect_marked(net: &Network, marks: &Vec<bool>) -> (r: Vec<String>)
    requires
        net.wf(),
        marks@.len() == net.node_ids().len(),
    ensures
        str_views(r@) == sorted_strs(marked_names(net.node_ids(), marks@, marks@.len() as int)),
        sorted_by(str_views(r@), str_order_fn()),
        enumerates(str_views(r@), marked_names(net.node_ids(), marks@, marks@.len() as int)),
{
    proof {
        net.lemma_orders();
        lemma_str_strict();
    }
    let ghost ids = net.node_ids();
    let n = marks.len();
    let mut out: Vec<String> = Vec::new();
    let mut t: usize = 0;
    proof {
        assert(marked_names(ids, marks@, 0) =~= Set::<Seq<char>>::empty());
    }
    while t < n
        invariant
            net.wf(),
            ids == net.node_ids(),
            n == marks@.len(),
            n == ids.len(),
            t <= n,
            forall|x: int, y: int| 0 <= x < y < ids.len() ==> str_lt(#[trigger] ids[x], #[trigger] ids[y]),
            sorted_by(str_views(out@), str_order_fn()),
            enumerates(str_views(out@), marked_names(ids, marks@, t as int)),
        decreases n - t,
    {
        if marks[t] {
            let node = net.node_at(t);
            let ghost before = str_views(out@);
            proof {
                assert forall|x: int| 0 <= x < before.len() implies str_lt(#[trigger] before[x], ids[t as int]) by {
                    assert(before.contains(before[x]));
                    assert(marked_names(ids, marks@, t as int).contains(before[x]));
                    let y = choose|y: int| 0 <= y < t && #[trigger] marks@[y] && ids[y] == before[x];
                    assert(str_lt(ids[y], ids[t as int]));
                }
            }
            out.push(node.id_ref().clone());
            proof {
                let after = str_views(out@);
                assert(after =~= before.push(ids[t as int]));
                assert(sorted_by(after, str_order_fn())) by {
                    assert forall|x: int, y: int| 0 <= x < y < after.len() implies (str_order_fn())(
                        #[trigger] after[x],
                        #[trigger] after[y],
                    ) by {
                        if y == before.len() {
                            assert(str_lt(before[x], ids[t as int]));
                        } else {
                            assert(after[x] == before[x] && after[y] == before[y]);
                        }
                    }
                }
                assert forall|z: Seq<char>| #[trigger] marked_names(ids, marks@, t + 1).contains(z) <==> after.contains(z) by {
                    assert(marked_names(ids, marks@, t as int).contains(z) <==> before.contains(z));
                    if marked_names(ids, marks@, t + 1).contains(z) {
                        let y = choose|y: int| 0 <= y < t + 1 && #[trigger] marks@[y] && ids[y] == z;
                        if y < t {
                            assert(marked_names(ids, marks@, t as int).contains(z));
                            let w = choose|w: int| 0 <= w < before.len() && before[w] == z;
                            assert(after[w] == z);
                        } else {
                            assert(after[before.len() as int] == z);
                        }
                    }
                    if after.contains(z) {
                        let w = choose|w: int| 0 <= w < after.len() && after[w] == z;
                        if w < before.len() {
                            assert(before[w] == z);
                            assert(before.contains(z));
                            let y = choose|y: int| 0 <= y < t && #[trigger] marks@[y] && ids[y] == z;
                            assert(0 <= y < t + 1 && marks@[y] && ids[y] == z);
                        } else {
                            assert(marks@[t as int] && ids[t as int] == z);
                        }
                    }
                }
            }
        } else {
            proof {
                assert forall|z: Seq<char>| #[trigger] marked_names(ids, marks@, t + 1).contains(z) <==> marked_names(ids, marks@, t as int).contains(z) by {
                    if marked_names(ids, marks@, t + 1).contains(z) {
                        let y = choose|y: int| 0 <= y < t + 1 && #[trigger] marks@[y] && ids[y] == z;
                        assert(y < t);
                    }
                }
            }
        }
        t = t + 1;
    }
    proof {
        lemma_sorted_enum(str_views(out@), marked_names(ids, marks@, n as int), str_order_fn());
    }
    out
}

/// Why a path query could not be answered.
#[derive(Debug, Clone, Copy, PartialEq, Eq)]
pub enum PathError {
    /// `from` or `to` does not exist in the network.
    EndpointMissing,
}

/// Every node adjacent to another is a node of the network.
proof fn lemma_adjacent_nodes(n: NetworkV, x: Seq<char>, y: Seq<char>)
    requires
        n.valid(),
        adjacent(n, x, y),
    ensures
        n.nodes.dom().contains(x),
        n.nodes.dom().contains(y),
{
    let lk = choose|lk: LinkKeyV| #[trigger] n.links.dom().contains(lk) && link_joins(lk, x, y);
    assert(n.has_endpoint(lk.0) && n.has_endpoint(lk.1));
}

/// Reachability is symmetric.
pub proof fn lemma_reachable_symmetric(n: NetworkV, x: Seq<char>, y: Seq<char>)
    requires
        reachable(n, x, y),
    ensures
        reachable(n, y, x),
{
    let p = choose|p: Seq<Seq<char>>| #[trigger] walk_between(n, p, x, y);
    let q = p.reverse();
    assert forall|i: int| 0 <= i < q.len() - 1 implies #[trigger] adjacent(n, q[i], q[i + 1]) by {
        let j = p.len() - 2 - i;
        assert(adjacent(n, p[j], p[j + 1]));
        let lk = choose|lk: LinkKeyV| #[trigger] n.links.dom().contains(lk) && link_joins(lk, p[j], p[j + 1]);
        assert(link_joins(lk, q[i], q[i + 1]));
    }
    assert(walk_between(n, q, y, x));
}

/// Reachability is transitive.
pub proof fn lemma_reachable_transitive(n: NetworkV, x: Seq<char>, y: Seq<char>, z: Seq<char>)
    requires
        reachable(n, x, y),
        reachable(n, y, z),
    ensures
        reachable(n, x, z),
{
    let p = choose|p: Seq<Seq<char>>| #[trigger] walk_between(n, p, x, y);
    let q = choose|q: Seq<Seq<char>>| #[trigger] walk_between(n, q, y, z);
    let w = p + q.drop_first();
    assert forall|i: int| 0 <= i < w.len() - 1 implies #[trigger] adjacent(n, w[i], w[i + 1]) by {
        if i < p.len() - 1 {
            assert(w[i] == p[i] && w[i + 1] == p[i + 1]);
        } else if i == p.len() - 1 {
            assert(w[i] == q[0] && w[i + 1] == q[1]);
        } else {
            let k = i - p.len() + 1;
            assert(w[i] == q[k] && w[i + 1] == q[k + 1]);
        }
    }
    assert forall|i: int| 0 <= i < w.len() implies n.nodes.dom().contains(#[trigger] w[i]) by {
        if i < p.len() {
            assert(w[i] == p[i]);
        } else {
            assert(w[i] == q[i - p.len() + 1]);
        }
    }
    if q.len() == 1 {
        assert(w =~= p);
    }
    assert(walk_between(n, w, x, z));
}

/// All nodes reachable from `start`, including `start` itself, ascending.
/// `None` if the start node does not exist.
pub fn reachable_from(net: &Network, start: &str) -> (r: Option<Vec<String>>)
    requires
        net.wf(),
    ensures
        r is Some <==> net@.nodes.dom().contains(start@),
        r matches Some(v) ==> str_views(v@) == sorted_strs(
            Set::new(|y: Seq<char>| reachable(net@, start@, y)),
        ),
{
    let s = match net.node_index(start) {
        None => {
            return None;
        },
        Some(i) => i,
    };
    let adj = index_adjacency(net);
    let (vis, _d, _p) = bfs(&adj, s);
    let out = collect_marked(net, &vis);
    proof {
        let ids = net.node_ids();
        let a = adj_view(adj@);
        net.lemma_metadata_finite();
        assert(marked_names(ids, vis@, vis@.len() as int) =~= Set::new(
            |y: Seq<char>| reachable(net@, start@, y),
        )) by {
            assert forall|y: Seq<char>| #[trigger] marked_names(ids, vis@, vis@.len() as int).contains(y)
                <==> reachable(net@, start@, y) by {
                if marked_names(ids, vis@, vis@.len() as int).contains(y) {
                    let t = choose|t: int| 0 <= t < vis@.len() && #[trigger] vis@[t] && ids[t] == y;
                    lemma_reach_agrees(net@, ids, a, s as int, t);
                }
                if reachable(net@, start@, y) {
                    let p = choose|p: Seq<Seq<char>>| #[trigger] walk_between(net@, p, start@, y);
                    assert(net@.nodes.dom().contains(p[p.len() - 1]));
                    assert(ids.contains(y));
                    let t = choose|t: int| 0 <= t < ids.len() && ids[t] == y;
                    lemma_reach_agrees(net@, ids, a, s as int, t);
                    assert(vis@[t]);
                }
            }
        }
    }
    Some(out)
}

/// Nodes directly adjacent to `node`, ascending. `None` if the node does
/// not exist.
pub fn neighbors(net: &Network, node: &str) -> (r: Option<Vec<String>>)
    requires
        net.wf(),
    ensures
        r is Some <==> net@.nodes.dom().contains(node@),
        r matches Some(v) ==> str_views(v@) == sorted_strs(
            Set::new(|y: Seq<char>| adjacent(net@, node@, y)),
        ),
{
    let i = match net.node_index(node) {
        None => {
            return None;
        },
        Some(i) => i,
    };
    let nb = neighbor_indices(net, i);
    let n = net.node_count();
    proof {
        net.lemma_orders();
    }
    let mut marks: Vec<bool> = Vec::new();
    let mut t: usize = 0;
    while t < n
        invariant
            t <= n,
            marks@.len() == t,
            forall|x: int| 0 <= x < t ==> !#[trigger] marks@[x],
        decreases n - t,
    {
        marks.push(false);
        t = t + 1;
    }
    let mut k: usize = 0;
    while k < nb.len()
        invariant
            k <= nb@.len(),
            marks@.len() == n,
            forall|x: int| 0 <= x < nb@.len() ==> #[trigger] nb@[x] < n,
            forall|x: int| 0 <= x < n ==> (#[trigger] marks@[x] <==> nb@.take(k as int).contains(x as usize)),
        decreases nb@.len() - k,
    {
        let j = nb[k];
        marks.set(j, true);
        proof {
            assert forall|x: int| 0 <= x < n implies (#[trigger] marks@[x] <==> nb@.take(k + 1).contains(x as usize)) by {
                lemma_take_contains(nb@, k as int, x as usize);
            }
        }
        k = k + 1;
    }
    let out = collect_marked(net, &marks);
    proof {
        let ids = net.node_ids();
        net.lemma_orders();
        net.lemma_metadata_finite();
        assert(nb@.take(nb@.len() as int) =~= nb@);
        assert(marked_names(ids, marks@, n as int) =~= Set::new(|y: Seq<char>| adjacent(net@, node@, y))) by {
            assert forall|y: Seq<char>| #[trigger] marked_names(ids, marks@, n as int).contains(y) <==> adjacent(
                net@,
                node@,
                y,
            ) by {
                if adjacent(net@, node@, y) {
                    lemma_adjacent_nodes(net@, node@, y);
                    assert(ids.contains(y));
                    let j = choose|j: int| 0 <= j < ids.len() && ids[j] == y;
                    assert(nb@.contains(j as usize));
                    assert(marks@[j]);
                }
            }
        }
    }
    Some(out)
}

/// `p` comes before `q` in lexicographic order of node names: they agree
/// up to some position, where `p`'s name is the smaller.
pub open spec fn lex_before(p: Seq<Seq<char>>, q: Seq<Seq<char>>) -> bool {
    exists|i: int| 0 <= i < p.len() && i < q.len() && p.take(i) == q.take(i) && #[trigger] str_lt(p[i], q[i])
}

/// Every step of `q` goes to the least neighbour one step nearer to the
/// search's root.
spec fn greedy(a: Seq<Seq<usize>>, vis: Seq<bool>, dist: Seq<usize>, q: Seq<int>) -> bool {
    forall|i: int, w: int|
        0 <= i < q.len() - 1 && #[trigger] iedge(a, q[i], w) && vis[w] && dist[w] + 1 == dist[q[i]] ==> q[i + 1]
            <= w
}

/// The least neighbour of `cur` that is one step nearer to the search's
/// root, given that there is one.
fn next_step(adj: &Vec<Vec<usize>>, vis: &Vec<bool>, dist: &Vec<usize>, cur: usize) -> (v: usize)
    requires
        cur < adj@.len(),
        adj_ok(adj@),
        vis@.len() == adj@.len(),
        dist@.len() == adj@.len(),
        ascending(adj@[cur as int]@),
        exists|w: int| #[trigger] iedge(adj_view(adj@), cur as int, w) && vis@[w] && dist@[w] + 1 == dist@[cur as int],
    ensures
        iedge(adj_view(adj@), cur as int, v as int) && vis@[v as int] && dist@[v as int] + 1 == dist@[cur as int],
        forall|w: int|
            #[trigger] iedge(adj_view(adj@), cur as int, w) && vis@[w] && dist@[w] + 1 == dist@[cur as int] ==> v <= w,
{
    let ghost a = adj_view(adj@);
    let total = adj.len();
    let nb = &adj[cur];
    proof {
        assert(a[cur as int] == nb@);
    }
    let mut k: usize = 0;
    while k < nb.len()
        invariant
            a == adj_view(adj@),
            cur < adj@.len(),
            adj_ok(adj@),
            nb@ == adj@[cur as int]@,
            a[cur as int] == nb@,
            vis@.len() == adj@.len(),
            dist@.len() == adj@.len(),
            ascending(nb@),
            k <= nb@.len(),
            forall|j: int| 0 <= j < k ==> !(vis@[#[trigger] nb@[j] as int] && dist@[nb@[j] as int] + 1 == dist@[cur as int]),
        decreases nb@.len() - k,
    {
        let w = nb[k];
        proof {
            assert(w < adj@.len());
        }
        if vis[w] && dist[cur] > 0 && dist[w] == dist[cur] - 1 {
            proof {
                assert(nb@.contains(w));
                assert forall|x: int|
                    #[trigger] iedge(a, cur as int, x) && vis@[x] && dist@[x] + 1 == dist@[cur as int] implies w <= x by {
                    let j = choose|j: int| 0 <= j < nb@.len() && nb@[j] == x as usize;
                    if j < k {
                        assert(!(vis@[nb@[j] as int] && dist@[nb@[j] as int] + 1 == dist@[cur as int]));
                    } else if j > k {
                        assert(nb@[k as int] < nb@[j]);
                    }
                }
            }
            return w;
        }
        k = k + 1;
    }
    proof {
        let x = choose|x: int| #[trigger] iedge(a, cur as int, x) && vis@[x] && dist@[x] + 1 == dist@[cur as int];
        assert(0 <= x < a.len());
        assert(a.len() == total);
        assert(nb@.contains(x as usize));
        let j = choose|j: int| 0 <= j < nb@.len() && nb@[j] == x as usize;
        assert(nb@[j] as int == x);
        assert(!(vis@[nb@[j] as int] && dist@[nb@[j] as int] + 1 == dist@[cur as int]));
        assert(false);
    }
    0
}

/// `from` reaches `to` from the other end too.
proof fn lemma_ireach_sym(n: NetworkV, ids: Seq<Seq<char>>, a: Seq<Seq<usize>>, s: int, t: int)
    requires
        index_graph(n, ids, a),
        ireach(a, s, t),
    ensures
        ireach(a, t, s),
{
    let q = choose|q: Seq<int>| #[trigger] ipath_between(a, q, s, t);
    lemma_within_zero(a, t, t);
    lemma_within_back(n, ids, a, t, q, q.len() - 1, 0, 0);
}

/// Shortest path (fewest links) between two nodes, both ends included.
///
/// `Err(EndpointMissing)` when an endpoint does not exist; `Ok(None)` when
/// no walk joins them; otherwise a walk from `from` to `to` that no other
/// walk is shorter than, and among equally short walks the least in
/// lexicographic order of node names. Distances to `to` are found breadth
/// first; the walk then steps each time to the least neighbour one step
/// nearer.
pub fn shortest_path(net: &Network, from: &str, to: &str) -> (r: Result<Option<Vec<String>>, PathError>)
    requires
        net.wf(),
    ensures
        r is Err <==> !(net@.nodes.dom().contains(from@) && net@.nodes.dom().contains(to@)),
        r matches Ok(o) ==> (o is Some <==> reachable(net@, from@, to@)),
        r matches Ok(Some(p)) ==> walk_between(net@, str_views(p@), from@, to@) && forall|q: Seq<Seq<char>>|
            #[trigger] walk_between(net@, q, from@, to@) ==> q.len() >= p@.len() && (q.len() == p@.len() && q
                != str_views(p@) ==> lex_before(str_views(p@), q)),
{
    let s = match net.node_index(from) {
        None => {
            return Err(PathError::EndpointMissing);
        },
        Some(i) => i,
    };
    let t = match net.node_index(to) {
        None => {
            return Err(PathError::EndpointMissing);
        },
        Some(i) => i,
    };
    proof {
        net.lemma_orders();
        net.lemma_metadata_finite();
    }
    let ghost ids = net.node_ids();
    if s == t {
        let mut v: Vec<String> = Vec::new();
        v.push(crate::text::owned(from));
        proof {
            let p = str_views(v@);
            assert(p =~= seq![from@]);
            assert(walk_between(net@, p, from@, to@));
            assert forall|w: Seq<Seq<char>>| #[trigger] walk_between(net@, w, from@, to@) && w.len() == 1
                implies w == p by {
                assert(w =~= p);
            }
        }
        return Ok(Some(v));
    }
    let adj = index_adjacency(net);
    let ghost a = adj_view(adj@);
    let (vis, dist, parent) = bfs(&adj, t);
    proof {
        lemma_reach_agrees(net@, ids, a, s as int, t as int);
        if ireach(a, s as int, t as int) {
            lemma_ireach_sym(net@, ids, a, s as int, t as int);
        }
        if ireach(a, t as int, s as int) {
            lemma_ireach_sym(net@, ids, a, t as int, s as int);
        }
    }
    if !vis[s] {
        return Ok(None);
    }
    // Walk from `from` towards `to`, each time to the least neighbour one
    // step nearer.
    let mut out: Vec<String> = Vec::new();
    out.push(net.node_at(s).id_ref().clone());
    let mut cur: usize = s;
    let ghost mut q: Seq<int> = seq![s as int];
    proof {
        assert(str_views(out@) =~= q.map_values(|x: int| ids[x]));
    }
    while cur != t
        invariant
            net.wf(),
            ids == net.node_ids(),
            a == adj_view(adj@),
            index_graph(net@, ids, a),
            adj_ok(adj@),
            a.len() == ids.len(),
            forall|i: int| 0 <= i < adj@.len() ==> ascending(#[trigger] adj@[i]@),
            bfs_facts(a, t as int, vis@, dist@, parent@),
            forall|y: int| 0 <= y < adj@.len() ==> (vis@[y] <==> ireach(a, t as int, y)),
            s < ids.len(),
            t < ids.len(),
            cur < ids.len(),
            vis@[cur as int],
            vis@[s as int],
            ipath(a, q),
            q[0] == s,
            q[q.len() - 1] == cur,
            dist@[cur as int] + q.len() - 1 == dist@[s as int],
            greedy(a, vis@, dist@, q),
            str_views(out@) == q.map_values(|x: int| ids[x]),
        decreases dist@[cur as int],
    {
        proof {
            let p = parent@[cur as int];
            assert(iedge(a, p as int, cur as int));
            lemma_iedge_sym(net@, ids, a, p as int, cur as int);
            assert(iedge(a, cur as int, p as int) && vis@[p as int] && dist@[p as int] + 1 == dist@[cur as int]);
        }
        let v = next_step(&adj, &vis, &dist, cur);
        let ghost q0 = q;
        let ghost before = out@;
        let node = net.node_at(v);
        out.push(node.id_ref().clone());
        proof {
            q = q0.push(v as int);
            assert(ipath(a, q)) by {
                assert forall|k: int| 0 <= k < q.len() - 1 implies #[trigger] iedge(a, q[k], q[k + 1]) by {
                    if k < q0.len() - 1 {
                        assert(q[k] == q0[k] && q[k + 1] == q0[k + 1]);
                        assert(iedge(a, q0[k], q0[k + 1]));
                    }
                }
                assert forall|k: int| 0 <= k < q.len() implies 0 <= #[trigger] q[k] < a.len() by {
                    if k < q0.len() {
                        assert(q[k] == q0[k]);
                    }
                }
            }
            assert(greedy(a, vis@, dist@, q)) by {
                assert forall|i: int, w: int|
                    0 <= i < q.len() - 1 && #[trigger] iedge(a, q[i], w) && vis@[w] && dist@[w] + 1 == dist@[q[i]]
                        implies q[i + 1] <= w by {
                    if i < q0.len() - 1 {
                        assert(q[i] == q0[i] && q[i + 1] == q0[i + 1]);
                    }
                }
            }
            assert(out@[out@.len() - 1]@ == ids[v as int]);
            assert(q.map_values(|x: int| ids[x]) =~= q0.map_values(|x: int| ids[x]).push(ids[v as int]));
            assert(str_views(out@) =~= str_views(before).push(ids[v as int]));
        }
        cur = v;
    }
    proof {
        let n = net@;
        let w0 = str_views(out@);
        lemma_within_zero(a, t as int, t as int);
        assert(dist@[t as int] == 0);
        assert(ipath_between(a, q, s as int, t as int));
        lemma_path_to_walk(n, ids, a, q, s as int, t as int);
        assert(w0 == q.map_values(|x: int| ids[x]));
        lemma_shortest_levels(n, ids, a, t as int, vis@, dist@, parent@, q, s as int);
        assert forall|w: Seq<Seq<char>>| #[trigger] walk_between(n, w, from@, to@) implies w.len() >= out@.len()
            && (w.len() == out@.len() && w != str_views(out@) ==> lex_before(str_views(out@), w)) by {
            lemma_walk_to_path(n, ids, a, w, s as int, t as int);
            let qq = choose|qq: Seq<int>| #[trigger] ipath_between(a, qq, s as int, t as int) && qq.len() == w.len()
                && forall|k: int| 0 <= k < qq.len() ==> ids[#[trigger] qq[k]] == w[k];
            lemma_within_back(n, ids, a, t as int, qq, qq.len() - 1, 0, 0);
            lemma_dist_at_most(a, t as int, vis@, dist@, parent@, s as int, qq.len() - 1);
            if w.len() == out@.len() && w != str_views(out@) {
                lemma_shortest_levels(n, ids, a, t as int, vis@, dist@, parent@, qq, s as int);
                lemma_lex_first_difference(ids, a, vis@, dist@, q, qq, w0, w);
            }
        }
    }
    Ok(Some(out))
}

/// Where a greedy shortest path and another shortest path first part, the
/// greedy one has the smaller name.
proof fn lemma_lex_first_difference(
    ids: Seq<Seq<char>>,
    a: Seq<Seq<usize>>,
    vis: Seq<bool>,
    dist: Seq<usize>,
    q: Seq<int>,
    qq: Seq<int>,
    p: Seq<Seq<char>>,
    w: Seq<Seq<char>>,
)
    requires
        forall|x: int, y: int| 0 <= x < y < ids.len() ==> str_lt(#[trigger] ids[x], #[trigger] ids[y]),
        a.len() == ids.len(),
        ipath(a, q),
        ipath(a, qq),
        q.len() == qq.len(),
        q[0] == qq[0],
        greedy(a, vis, dist, q),
        forall|k: int| 0 <= k < qq.len() ==> vis[#[trigger] qq[k]] && dist[qq[k]] == dist[qq[0]] - k,
        forall|k: int| 0 <= k < q.len() ==> dist[#[trigger] q[k]] == dist[q[0]] - k,
        p == q.map_values(|x: int| ids[x]),
        w.len() == qq.len(),
        forall|k: int| 0 <= k < qq.len() ==> ids[#[trigger] qq[k]] == w[k],
        p != w,
    ensures
        lex_before(p, w),
{
    assert(exists|i: int| 0 <= i < q.len() && q[i] != qq[i]) by {
        if forall|i: int| 0 <= i < q.len() ==> q[i] == qq[i] {
            assert forall|i: int| 0 <= i < p.len() implies p[i] == w[i] by {
                assert(qq[i] == q[i]);
            }
            assert(p =~= w);
        }
    }
    let i0 = choose|i: int| 0 <= i < q.len() && q[i] != qq[i];
    lemma_first_diff(q, qq, i0);
    let i = choose|i: int| 0 <= i <= i0 && q[i] != qq[i] && forall|j: int| 0 <= j < i ==> q[j] == qq[j];
    assert(i > 0);
    let k = i - 1;
    assert(q[k] == qq[k]);
    assert(iedge(a, qq[k], qq[k + 1]));
    assert(iedge(a, q[k], qq[i]));
    assert(dist[qq[i]] + 1 == dist[q[k]]);
    assert(q[k + 1] <= qq[i]);
    assert(0 <= q[i] < a.len() && 0 <= qq[i] < a.len());
    assert(str_lt(ids[q[i]], ids[qq[i]]));
    assert(p[i] == ids[q[i]]);
    assert(w[i] == ids[qq[i]]);
    assert(p.take(i) =~= w.take(i)) by {
        assert forall|j: int| 0 <= j < i implies p.take(i)[j] == w.take(i)[j] by {
            assert(q[j] == qq[j]);
        }
    }
    assert(str_lt(p[i], w[i]));
}

/// Some position up to `i0` is the first where two sequences differ.
proof fn lemma_first_diff(q: Seq<int>, qq: Seq<int>, i0: int)
    requires
        0 <= i0 < q.len(),
        i0 < qq.len(),
        q[i0] != qq[i0],
    ensures
        exists|i: int| 0 <= i <= i0 && q[i] != qq[i] && forall|j: int| 0 <= j < i ==> q[j] == qq[j],
    decreases i0,
{
    if exists|j: int| 0 <= j < i0 && q[j] != qq[j] {
        let j = choose|j: int| 0 <= j < i0 && q[j] != qq[j];
        lemma_first_diff(q, qq, j);
    } else {
        assert(forall|j: int| 0 <= j < i0 ==> q[j] == qq[j]);
    }
}

/// The first element of an ascending sequence holding a least member.
proof fn lemma_first_is_least(s: Seq<Seq<char>>, m: Seq<char>)
    requires
        sorted_by(s, str_order_fn()),
        s.contains(m),
        forall|e: Seq<char>| #[trigger] s.contains(e) && e != m ==> str_lt(m, e),
    ensures
        s[0] == m,
{
    let p = choose|p: int| 0 <= p < s.len() && s[p] == m;
    if p > 0 {
        assert((str_order_fn())(s[0], s[p]));
        assert(s.contains(s[0]));
        if s[0] != m {
            assert(str_lt(m, s[0]));
            assert(str_lt(m, m));
        }
    }
}

/// The nodes reachable from `z`.
pub open spec fn component_of(n: NetworkV, z: Seq<char>) -> Set<Seq<char>> {
    Set::new(|y: Seq<char>| reachable(n, z, y))
}

/// What a node reaches is the whole component of any node that reaches
/// it: reachability from a member lists exactly its component.
pub proof fn law_reachable_set_is_component(n: NetworkV, z: Seq<char>, x: Seq<char>)
    requires
        reachable(n, z, x),
    ensures
        Set::new(|y: Seq<char>| reachable(n, x, y)) == component_of(n, z),
{
    lemma_reachable_symmetric(n, z, x);
    assert forall|y: Seq<char>| reachable(n, x, y) <==> reachable(n, z, y) by {
        if reachable(n, x, y) {
            lemma_reachable_transitive(n, z, x, y);
        }
        if reachable(n, z, y) {
            lemma_reachable_transitive(n, x, z, y);
        }
    }
    assert(Set::new(|y: Seq<char>| reachable(n, x, y)) =~= component_of(n, z));
}

/// Connected components of the node graph, each ascending; the components
/// come in ascending order of their least member, and together they hold
/// every node.
#[verifier::rlimit(80)]
#[verifier::spinoff_prover]
pub fn components(net: &Network) -> (r: Vec<Vec<String>>)
    requires
        net.wf(),
    ensures
        forall|x: int|
            0 <= x < r@.len() ==> (#[trigger] r@[x])@.len() > 0 && str_views(r@[x]@) == sorted_strs(
                component_of(net@, r@[x]@[0]@),
            ),
        forall|x: int, y: int| 0 <= x < y < r@.len() ==> str_lt(#[trigger] r@[x]@[0]@, #[trigger] r@[y]@[0]@),
        forall|k: Seq<char>|
            #[trigger] net@.nodes.dom().contains(k) ==> exists|x: int|
                0 <= x < r@.len() && str_views(r@[x]@).contains(k),
{
    proof {
        net.lemma_orders();
        net.lemma_metadata_finite();
        lemma_str_strict();
    }
    let ghost ids = net.node_ids();
    let n = net.node_count();
    let adj = index_adjacency(net);
    let ghost a = adj_view(adj@);
    let mut seen: Vec<bool> = Vec::new();
    let mut t: usize = 0;
    while t < n
        invariant
            t <= n,
            seen@.len() == t,
            forall|x: int| 0 <= x < t ==> !#[trigger] seen@[x],
        decreases n - t,
    {
        seen.push(false);
        t = t + 1;
    }
    let mut out: Vec<Vec<String>> = Vec::new();
    let ghost mut starts: Seq<int> = Seq::empty();
    let mut i: usize = 0;
    while i < n
        invariant
            net.wf(),
            net@.valid(),
            ids == net.node_ids(),
            n == ids.len(),
            a == adj_view(adj@),
            adj_ok(adj@),
            adj@.len() == n,
            index_graph(net@, ids, a),
            i <= n,
            seen@.len() == n,
            out@.len() == starts.len(),
            forall|x: int| 0 <= x < n ==> (#[trigger] seen@[x] <==> exists|y: int|
                0 <= y < starts.len() && ireach(a, starts[y], x)),
            forall|x: int| 0 <= x < i ==> #[trigger] seen@[x],
            forall|x: int| 0 <= x < starts.len() ==> 0 <= #[trigger] starts[x] < i,
            forall|x: int, y: int| 0 <= x < y < starts.len() ==> #[trigger] starts[x] < #[trigger] starts[y],
            forall|x: int|
                0 <= x < out@.len() ==> (#[trigger] out@[x])@.len() > 0 && out@[x]@[0]@ == ids[starts[x]]
                    && str_views(out@[x]@) == sorted_strs(component_of(net@, ids[starts[x]]))
                    && enumerates(str_views(out@[x]@), component_of(net@, ids[starts[x]])),
        decreases n - i,
    {
        if !seen[i] {
            let (vis, _d, _p) = bfs(&adj, i);
            let comp = collect_marked(net, &vis);
            let ghost cset = component_of(net@, ids[i as int]);
            proof {
                assert(marked_names(ids, vis@, n as int) =~= cset) by {
                    assert forall|y: Seq<char>| #[trigger] marked_names(ids, vis@, n as int).contains(y)
                        <==> cset.contains(y) by {
                        if marked_names(ids, vis@, n as int).contains(y) {
                            let x = choose|x: int| 0 <= x < n && #[trigger] vis@[x] && ids[x] == y;
                            lemma_reach_agrees(net@, ids, a, i as int, x);
                        }
                        if cset.contains(y) {
                            let p = choose|p: Seq<Seq<char>>| #[trigger] walk_between(net@, p, ids[i as int], y);
                            assert(net@.nodes.dom().contains(p[p.len() - 1]));
                            assert(ids.contains(y));
                            let x = choose|x: int| 0 <= x < ids.len() && ids[x] == y;
                            lemma_reach_agrees(net@, ids, a, i as int, x);
                            assert(vis@[x]);
                        }
                    }
                }
                let cv = str_views(comp@);
                // the start is the least member of its component
                assert(cset.contains(ids[i as int])) by {
                    let p = seq![ids[i as int]];
                    assert(walk_between(net@, p, ids[i as int], ids[i as int]));
                }
                assert forall|e: Seq<char>| #[trigger] cv.contains(e) && e != ids[i as int] implies str_lt(
                    ids[i as int],
                    e,
                ) by {
                    assert(cset.contains(e));
                    let p = choose|p: Seq<Seq<char>>| #[trigger] walk_between(net@, p, ids[i as int], e);
                    assert(net@.nodes.dom().contains(p[p.len() - 1]));
                    let j = choose|j: int| 0 <= j < ids.len() && ids[j] == e;
                    if j < i {
                        assert(seen@[j]);
                        let y = choose|y: int| 0 <= y < starts.len() && ireach(a, starts[y], j);
                        lemma_reach_agrees(net@, ids, a, starts[y], j);
                        lemma_reachable_symmetric(net@, ids[i as int], e);
                        lemma_reachable_transitive(net@, ids[starts[y]], e, ids[i as int]);
                        lemma_reach_agrees(net@, ids, a, starts[y], i as int);
                        assert(seen@[i as int]);
                    } else {
                        assert(j > i);
                    }
                }
                assert(cv.contains(ids[i as int]));
                lemma_first_is_least(cv, ids[i as int]);
            }
            let mut x: usize = 0;
            let ghost seen0 = seen@;
            while x < n
                invariant
                    x <= n,
                    seen@.len() == n,
                    vis@.len() == n,
                    forall|y: int| 0 <= y < n ==> (#[trigger] seen@[y] <==> (seen0[y] || (y < x && vis@[y]))),
                decreases n - x,
            {
                if vis[x] {
                    seen.set(x, true);
                }
                x = x + 1;
            }
            let ghost out0 = out@;
            out.push(comp);
            proof {
                let s0 = starts;
                starts = starts.push(i as int);
                assert forall|y: int| 0 <= y < n implies (#[trigger] seen@[y] <==> exists|z: int|
                    0 <= z < starts.len() && ireach(a, starts[z], y)) by {
                    assert(seen@[y] <==> (seen0[y] || vis@[y]));
                    if vis@[y] {
                        assert(starts[s0.len() as int] == i);
                        assert(ireach(a, starts[s0.len() as int], y));
                    }
                    if seen0[y] {
                        let z = choose|z: int| 0 <= z < s0.len() && ireach(a, s0[z], y);
                        assert(starts[z] == s0[z]);
                    }
                    if exists|z: int| 0 <= z < starts.len() && ireach(a, starts[z], y) {
                        let z = choose|z: int| 0 <= z < starts.len() && ireach(a, starts[z], y);
                        if z < s0.len() {
                            assert(starts[z] == s0[z]);
                        }
                    }
                }
                assert forall|z: int|
                    0 <= z < out@.len() implies (#[trigger] out@[z])@.len() > 0 && out@[z]@[0]@ == ids[starts[z]]
                        && str_views(out@[z]@) == sorted_strs(component_of(net@, ids[starts[z]]))
                        && enumerates(str_views(out@[z]@), component_of(net@, ids[starts[z]])) by {
                    if z < s0.len() {
                        assert(out@[z] == out0[z]);
                    }
                }
            }
        }
        i = i + 1;
    }
    proof {
        assert forall|k: Seq<char>| #[trigger] net@.nodes.dom().contains(k) implies exists|x: int|
            0 <= x < out@.len() && str_views(out@[x]@).contains(k) by {
            assert(ids.contains(k));
            let j = choose|j: int| 0 <= j < ids.len() && ids[j] == k;
            assert(seen@[j]);
            let y = choose|y: int| 0 <= y < starts.len() && ireach(a, starts[y], j);
            lemma_reach_agrees(net@, ids, a, starts[y], j);
            assert(component_of(net@, ids[starts[y]]).contains(k));
            assert(out@[y]@.len() > 0);
        }
        assert forall|x: int, y: int| 0 <= x < y < out@.len() implies str_lt(#[trigger] out@[x]@[0]@, #[trigger] out@[y]@[0]@) by {
            assert(out@[x]@.len() > 0 && out@[y]@.len() > 0);
            assert(starts[x] < starts[y]);
        }
    }
    out
}

/// The node graph as adjacency: each node with its neighbours, ascending.
pub fn adjacency(net: &Network) -> (r: Vec<(String, Vec<String>)>)
    requires
        net.wf(),
    ensures
        r@.len() == net.node_ids().len(),
        forall|i: int|
            0 <= i < r@.len() ==> (#[trigger] r@[i]).0@ == net.node_ids()[i] && str_views(r@[i].1@)
                == sorted_strs(Set::new(|y: Seq<char>| adjacent(net@, net.node_ids()[i], y))),
{
    proof {
        net.lemma_orders();
    }
    let n = net.node_count();
    let mut out: Vec<(String, Vec<String>)> = Vec::new();
    let mut i: usize = 0;
    while i < n
        invariant
            net.wf(),
            n == net.node_ids().len(),
            forall|x: int| 0 <= x < n ==> net@.nodes.dom().contains(#[trigger] net.node_ids()[x]),
            i <= n,
            out@.len() == i,
            forall|x: int|
                0 <= x < i ==> (#[trigger] out@[x]).0@ == net.node_ids()[x] && str_views(out@[x].1@)
                    == sorted_strs(Set::new(|y: Seq<char>| adjacent(net@, net.node_ids()[x], y))),
        decreases n - i,
    {
        let node = net.node_at(i);
        let id = node.id_ref();
        let nb = match neighbors(net, id.as_str()) {
            Some(v) => v,
            None => Vec::new(),
        };
        out.push((id.clone(), nb));
        i = i + 1;
    }
    out
}

} // verus!
