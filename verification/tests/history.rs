use std::collections::BTreeMap;
use rahn::commit::CommitId;
use rahn::history::common_ancestor;


fn graph(edges: &[(u8, u8)]) -> BTreeMap<CommitId, Vec<CommitId>> {
    let mut g: BTreeMap<CommitId, Vec<CommitId>> = BTreeMap::new();
    let node = |n: u8| CommitId([n; 32]);
    for (child, parent) in edges {
        g.entry(node(*child)).or_default().push(node(*parent));
    }
    g
}


fn parents_of(
    g: &BTreeMap<CommitId, Vec<CommitId>>,
) -> impl Fn(CommitId) -> Option<Vec<CommitId>> + '_ {
    move |id: CommitId| Some(g.get(&id).cloned().unwrap_or_default())
}


fn id(n: u8) -> CommitId {
    CommitId([n; 32])
}

#[test]
fn linear_history() {
    // 3 -> 2 -> 1
    let g = graph(&[(2, 1), (3, 2)]);
    assert_eq!(common_ancestor(id(3), id(2), parents_of(&g)), Some(id(2)));
    assert_eq!(common_ancestor(id(3), id(1), parents_of(&g)), Some(id(1)));
}

#[test]
fn branched_history() {
    // 5 -> 3 -> 1, 4 -> 2 -> 1
    let g = graph(&[(5, 3), (3, 1), (4, 2), (2, 1)]);
    assert_eq!(common_ancestor(id(5), id(4), parents_of(&g)), Some(id(1)));
}

#[test]
fn same_commit() {
    let g = graph(&[]);
    assert_eq!(common_ancestor(id(7), id(7), parents_of(&g)), Some(id(7)));
}

#[test]
fn disjoint_histories() {
    // 2 -> 1 and 9 -> 8: no common ancestor.
    let g = graph(&[(2, 1), (9, 8)]);
    assert_eq!(common_ancestor(id(2), id(9), parents_of(&g)), None);
}

#[test]
fn diamond() {
    // 4 -> 3 -> 1, 4 -> 2 -> 1 (merge-style parents), 3 and 2 merge at 4.
    let mut g = graph(&[(3, 1), (2, 1)]);
    g.entry(id(4)).or_default().extend([id(3), id(2)]);
    assert_eq!(common_ancestor(id(4), id(3), parents_of(&g)), Some(id(3)));
}

#[test]
fn failed_parent_lookup_gives_no_base() {
    // 3 -> 1 and 2 -> 1, but the lookup of 1 fails.
    let g = graph(&[(3, 1), (2, 1)]);
    let lookup = |c: CommitId| {
        if c == id(1) {
            None
        } else {
            Some(g.get(&c).cloned().unwrap_or_default())
        }
    };
    assert_eq!(common_ancestor(id(3), id(2), lookup), None);
}

#[test]
fn nearest_common_ancestor_by_breadth_first_order() {
    // 5 -> 4 -> 2 -> 1, 5 -> 3 -> 1, 6 -> 3: from 5, breadth first, 3 is met
    // before 1.
    let g = graph(&[(5, 4), (5, 3), (4, 2), (2, 1), (3, 1), (6, 3)]);
    assert_eq!(common_ancestor(id(5), id(6), parents_of(&g)), Some(id(3)));
}
