use rahn::args::{parse, Command, USAGE};


fn args(list: &[&str]) -> Vec<String> {
    list.iter().map(|s| s.to_string()).collect()
}

#[test]
fn parses_all_subcommands() {
    assert_eq!(parse(&args(&["init"])).unwrap(), Command::Init);
    assert_eq!(
        parse(&args(&["node", "add", "web", "role=api", "zone=a"])).unwrap(),
        Command::NodeAdd {
            id: "web".into(),
            metadata: vec![("role".into(), "api".into()), ("zone".into(), "a".into())]
        }
    );
    assert_eq!(
        parse(&args(&["interface", "add", "web", "eth0"])).unwrap(),
        Command::InterfaceAdd {
            node: "web".into(),
            name: "eth0".into()
        }
    );
    assert_eq!(
        parse(&args(&["link", "add", "a/eth0", "b/eth0"])).unwrap(),
        Command::LinkAdd {
            a: "a/eth0".into(),
            b: "b/eth0".into()
        }
    );
    assert_eq!(
        parse(&args(&["commit", "-m", "msg"])).unwrap(),
        Command::Commit {
            message: "msg".into()
        }
    );
    assert_eq!(parse(&args(&["branch"])).unwrap(), Command::BranchList);
    assert_eq!(
        parse(&args(&["branch", "exp"])).unwrap(),
        Command::BranchCreate { name: "exp".into() }
    );
    assert_eq!(
        parse(&args(&["checkout", "exp"])).unwrap(),
        Command::Checkout {
            name: "exp".into(),
            force: false
        }
    );
    assert_eq!(
        parse(&args(&["checkout", "-f", "exp"])).unwrap(),
        Command::Checkout {
            name: "exp".into(),
            force: true
        }
    );
    assert_eq!(
        parse(&args(&["path", "a", "b"])).unwrap(),
        Command::Path {
            from: "a".into(),
            to: "b".into()
        }
    );
}

#[test]
fn rejects_bad_input() {
    assert!(parse(&args(&[])).is_err());
    assert!(parse(&args(&["frobnicate"])).is_err());
    assert!(parse(&args(&["node", "add"])).is_err());
    assert!(parse(&args(&["node", "add", "web", "noequals"])).is_err());
    assert!(parse(&args(&["commit"])).is_err());
    assert!(parse(&args(&["link", "add", "a"])).is_err());
    assert!(parse(&args(&["init", "extra"])).is_err());
    assert!(parse(&args(&["commit", "-m", "a", "-m", "b"])).is_err());
    assert!(parse(&args(&["checkout", "--force"])).is_err());
}

#[test]
fn usage_errors_name_the_first_broken_rule() {
    let err = parse(&args(&["frobnicate"])).unwrap_err();
    assert!(err.starts_with("unknown subcommand \"frobnicate\"\n\n"), "{err}");
    assert!(err.ends_with(USAGE));
    let err = parse(&args(&["node", "add", "a", "k=v", "novalue"])).unwrap_err();
    assert!(err.starts_with("metadata must be key=value (got \"novalue\")\n\n"), "{err}");
    let err = parse(&args(&["node", "add", "a", "=v"])).unwrap_err();
    assert!(err.starts_with("metadata key and value must be non-empty (got \"=v\")"), "{err}");
    let err = parse(&args(&["commit", "-m", "x", "-m", "y"])).unwrap_err();
    assert!(err.starts_with("-m given twice\n\n"), "{err}");
    let err = parse(&args(&["commit"])).unwrap_err();
    assert!(err.starts_with("commit requires -m <message>\n\n"), "{err}");
    let err = parse(&args(&["checkout", "-f", "--force", "x"])).unwrap_err();
    assert!(err.starts_with("--force given twice\n\n"), "{err}");
    let err = parse(&args(&["iface", "add", "a", "eth0", "extra"])).unwrap_err();
    assert!(
        err.starts_with("unexpected argument \"extra\" for subcommand \"interface add\"\n\n"),
        "{err}"
    );
    let err = parse(&args(&["diff", "main"])).unwrap_err();
    assert!(err.starts_with("missing argument for diff <from-ref> <to-ref>\n\n"), "{err}");
    let err = parse(&args(&[])).unwrap_err();
    assert!(err.starts_with("missing subcommand\n\n"), "{err}");
}
