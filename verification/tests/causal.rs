use std::collections::BTreeSet;
use rahn::causal::{frame_edge, load_graph, Anchor, CausalEdge, CausalError, CausalGraph, Status};


fn obs(n: u64) -> Anchor {
    Anchor::Observation(n)
}

#[test]
fn edge_round_trip() {
    let e = CausalEdge::new(
        0,
        obs(1),
        obs(2),
        Status::Hypothesis,
        "link down first".into(),
    )
    .unwrap();
    assert_eq!(CausalEdge::parse(&e.canonical_bytes()).unwrap(), e);
    let commit = Anchor::Commit([7u8; 32]);
    let commit2 = Anchor::Commit([8u8; 32]);
    let e2 =
        CausalEdge::new(1, commit, commit2, Status::Verified, "transition".into()).unwrap();
    assert_eq!(CausalEdge::parse(&e2.canonical_bytes()).unwrap(), e2);
}

#[test]
fn verified_requires_commit_anchors() {
    assert_eq!(
        CausalEdge::new(0, obs(1), obs(2), Status::Verified, String::new()),
        Err(CausalError::VerifiedRequiresCommits)
    );
    // Commit -> observation is also rejected for verified.
    assert_eq!(
        CausalEdge::new(
            0,
            Anchor::Commit([1; 32]),
            obs(2),
            Status::Verified,
            String::new()
        ),
        Err(CausalError::VerifiedRequiresCommits)
    );
}

#[test]
fn self_edge_and_long_note_rejected() {
    assert_eq!(
        CausalEdge::new(0, obs(1), obs(1), Status::Hypothesis, String::new()),
        Err(CausalError::Cycle)
    );
    assert!(CausalEdge::new(0, obs(1), obs(2), Status::Hypothesis, "x".repeat(257)).is_err());
}

#[test]
fn status_and_anchor_parsing() {
    assert!(Status::parse("nope").is_err());
    assert!(Anchor::parse("obs:x").is_err());
    assert!(Anchor::parse("commit:zz").is_err());
    assert_eq!(Anchor::parse("obs:5").unwrap(), obs(5));
}

#[test]
fn dag_cycle_detection() {
    let mut g = CausalGraph::new(vec![]);
    let exists = |_: &Anchor| true;
    g.insert(CausalEdge::new(0, obs(1), obs(2), Status::Hypothesis, String::new()).unwrap());
    g.insert(CausalEdge::new(1, obs(2), obs(3), Status::Hypothesis, String::new()).unwrap());
    // 3 -> 1 would close the cycle 1→2→3→1.
    assert_eq!(
        g.check_insert(&obs(3), &obs(1), Status::Hypothesis, exists),
        Err(CausalError::Cycle)
    );
    // 1 -> 3 is fine (no path 3→1 exists).
    assert!(g
        .check_insert(&obs(1), &obs(3), Status::Hypothesis, exists)
        .is_ok());
}

#[test]
fn dangling_anchor_rejected() {
    let g = CausalGraph::new(vec![]);
    let exists = |a: &Anchor| matches!(a, Anchor::Observation(1));
    assert_eq!(
        g.check_insert(&obs(1), &obs(2), Status::Hypothesis, exists),
        Err(CausalError::DanglingAnchor {
            anchor: "obs:2".into()
        })
    );
}

#[test]
fn incident_is_connected_component() {
    let mut g = CausalGraph::new(vec![]);
    for (f, t) in [(1u64, 2u64), (2, 3), (9, 10)] {
        g.insert(
            CausalEdge::new(f, obs(f), obs(t), Status::Hypothesis, String::new()).unwrap(),
        );
    }
    let comp: BTreeSet<Anchor> = g.incident_around(&obs(2)).into_iter().collect();
    assert_eq!(comp, BTreeSet::from([obs(1), obs(2), obs(3)]));
    assert_eq!(
        g.incident_around(&obs(10)).into_iter().collect::<BTreeSet<Anchor>>(),
        BTreeSet::from([obs(9), obs(10)])
    );
}

fn edge(seq: u64, from: u64, to: u64) -> CausalEdge {
    CausalEdge::new(seq, obs(from), obs(to), Status::Hypothesis, String::new()).unwrap()
}

#[test]
fn from_edges_keeps_acyclic_edges_in_order() {
    let es = vec![edge(0, 1, 2), edge(1, 2, 3), edge(2, 1, 3)];
    let g = CausalGraph::from_edges(es.clone()).unwrap();
    assert_eq!(g.edges(), es.as_slice());
}

#[test]
fn from_edges_refuses_a_cycle() {
    let es = vec![edge(0, 1, 2), edge(1, 2, 3), edge(2, 3, 1)];
    assert_eq!(CausalGraph::from_edges(es).err(), Some(CausalError::Cycle));
}

#[test]
fn load_graph_reasserts_acyclicity() {
    let mut bytes = Vec::new();
    for e in [edge(0, 1, 2), edge(1, 2, 1)] {
        bytes.extend(frame_edge(&e));
    }
    assert_eq!(load_graph(&bytes).err(), Some(CausalError::Cycle));
    let mut good = Vec::new();
    for e in [edge(0, 1, 2), edge(1, 2, 3)] {
        good.extend(frame_edge(&e));
    }
    assert_eq!(load_graph(&good).unwrap().edges().len(), 2);
    assert!(matches!(
        load_graph(&good[..good.len() - 1]),
        Err(CausalError::MalformedRecord { .. })
    ));
}

#[test]
fn new_matches_successive_inserts() {
    let es = vec![edge(0, 1, 2), edge(1, 2, 3), edge(2, 9, 10)];
    let g = CausalGraph::new(es.clone());
    let mut g2 = CausalGraph::new(vec![]);
    for e in es.iter().cloned() {
        g2.insert(e);
    }
    assert_eq!(g.edges(), g2.edges());
    let exists = |_: &Anchor| true;
    for x in [1u64, 2, 3, 9, 10, 11] {
        let a: BTreeSet<Anchor> = g.incident_around(&obs(x)).into_iter().collect();
        let b: BTreeSet<Anchor> = g2.incident_around(&obs(x)).into_iter().collect();
        assert_eq!(a, b);
        assert_eq!(
            g.check_insert(&obs(3), &obs(x), Status::Hypothesis, exists),
            g2.check_insert(&obs(3), &obs(x), Status::Hypothesis, exists)
        );
    }
}

#[test]
fn edge_with_trailing_bytes_is_malformed() {
    let e = edge(4, 1, 2);
    let mut b = e.canonical_bytes();
    let n = b.len();
    b.push(7);
    assert_eq!(
        CausalEdge::parse(&b),
        Err(CausalError::MalformedRecord { offset: n, message: "trailing bytes".into() })
    );
    let cut = &e.canonical_bytes()[..n - 1];
    assert!(matches!(CausalEdge::parse(cut), Err(CausalError::MalformedRecord { .. })));
}

#[test]
fn anchor_text_reads_back() {
    for a in [obs(0), obs(18446744073709551615), Anchor::Commit([0xab; 32])] {
        assert_eq!(Anchor::parse(&a.text()).unwrap(), a);
    }
}

#[test]
fn incident_around_is_in_ascending_order() {
    let mut g = CausalGraph::new(vec![]);
    g.insert(edge(0, 3, 1));
    g.insert(edge(1, 2, 3));
    g.insert(CausalEdge::new(2, Anchor::Commit([5u8; 32]), obs(2), Status::Hypothesis, String::new()).unwrap());
    g.insert(CausalEdge::new(3, Anchor::Commit([1u8; 32]), obs(1), Status::Hypothesis, String::new()).unwrap());
    assert_eq!(
        g.incident_around(&obs(2)),
        vec![obs(1), obs(2), obs(3), Anchor::Commit([1u8; 32]), Anchor::Commit([5u8; 32])]
    );
}

#[test]
fn cycle_through_existing_path_is_the_cycle_error() {
    let mut g = CausalGraph::new(vec![]);
    g.insert(edge(0, 1, 2));
    g.insert(edge(1, 2, 3));
    let exists = |_: &Anchor| true;
    assert_eq!(g.check_insert(&obs(3), &obs(1), Status::Hypothesis, exists), Err(CausalError::Cycle));
    assert_eq!(g.check_insert(&obs(2), &obs(2), Status::Hypothesis, exists), Err(CausalError::Cycle));
}

#[test]
fn overlong_frame_is_malformed() {
    let mut bytes = frame_edge(&edge(0, 1, 2));
    bytes[0] = bytes[0].wrapping_add(5);
    assert!(matches!(load_graph(&bytes), Err(CausalError::MalformedRecord { .. })));
    assert!(matches!(load_graph(&[1, 2, 3]), Err(CausalError::MalformedRecord { .. })));
}
