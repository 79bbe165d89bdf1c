use rahn::cli::CliError;
use rahn::constitution::Constitution;
use rahn::flow::{check_checkout, prepare_commit, prepare_merge};
use rahn::model::{Endpoint, Metadata, Network, State};
use rahn::transition::{apply_all, Operation};

fn nodes(ids: &[&str]) -> Network {
    let mut n = Network::empty();
    for i in ids {
        n.add_node(i, Metadata::new()).unwrap();
        n.add_interface(i, "eth0").unwrap();
    }
    n
}

fn runtime(r: Result<impl std::fmt::Debug, CliError>) -> String {
    match r {
        Err(CliError::Runtime(m)) => m,
        other => panic!("expected a runtime error, got {other:?}"),
    }
}

#[test]
fn commit_needs_a_change() {
    let n = nodes(&["a"]);
    let s = State { network: n.clone() };
    assert_eq!(
        runtime(prepare_commit(&n, &s, &Constitution::default())),
        "nothing to commit (working state equals HEAD)"
    );
}

#[test]
fn commit_records_the_operations_between() {
    let parent = nodes(&["a"]);
    let working = State { network: nodes(&["a", "b"]) };
    let ops = prepare_commit(&parent, &working, &Constitution::default()).unwrap();
    assert_eq!(
        ops,
        vec![
            Operation::AddNode { id: "b".into(), metadata: Metadata::new() },
            Operation::AddInterface { node: "b".into(), name: "eth0".into() },
        ]
    );
    assert_eq!(apply_all(&parent, &ops).unwrap(), working.network);
}

#[test]
fn commit_is_refused_when_the_constitution_is_violated() {
    let parent = Network::empty();
    let working = State { network: nodes(&["a", "b"]) };
    let c = Constitution::parse("require-connectivity a b\n").unwrap();
    let m = runtime(prepare_commit(&parent, &working, &c));
    assert!(m.starts_with("commit rejected by verification:\n"), "{m}");
    assert!(m.contains("named-connectivity"), "{m}");
    assert!(m.contains("no path"), "{m}");
}

#[test]
fn checkout_rules() {
    assert!(check_checkout("main", "dev", false, false).is_ok());
    assert!(check_checkout("main", "dev", true, true).is_ok());
    assert_eq!(
        runtime(check_checkout("main", "main", false, false)),
        "already on branch \"main\""
    );
    assert!(runtime(check_checkout("main", "dev", true, false)).contains("uncommitted changes"));
}

#[test]
fn merge_is_verified() {
    let base = nodes(&["a", "b"]);
    let ours = nodes(&["a", "b", "c"]);
    let theirs = nodes(&["a", "b", "d"]);
    let merged = prepare_merge(&base, &ours, &theirs, &Constitution::default()).unwrap();
    assert_eq!(merged.network, nodes(&["a", "b", "c", "d"]));
    let c = Constitution::parse("require-connectivity a b\n").unwrap();
    let m = runtime(prepare_merge(&base, &ours, &theirs, &c));
    assert!(m.starts_with("merge result rejected by verification:\n"), "{m}");
}

#[test]
fn merge_conflict_is_explained() {
    let base = nodes(&["z", "w"]);
    let ours = nodes(&["w"]);
    let mut theirs = nodes(&["z", "w"]);
    theirs
        .add_link(Endpoint::new("w", "eth0").unwrap(), Endpoint::new("z", "eth0").unwrap())
        .unwrap();
    let m = runtime(prepare_merge(&base, &ours, &theirs, &Constitution::default()));
    assert!(m.starts_with("merge rejected: "), "{m}");
    assert!(m.contains("internal merge error"), "{m}");
}
