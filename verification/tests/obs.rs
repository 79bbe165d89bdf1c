use rahn::obs::{order_key, ObsError, Observation, Subject, Value};
use rahn::model::{Metadata, Network};


fn rec(seq: u64, time_ns: u64, metric: &str, value: Value) -> Observation {
    Observation::new(
        seq,
        time_ns,
        "aa".repeat(32),
        Subject::parse("web/eth0").unwrap(),
        metric,
        value,
    )
    .unwrap()
}

#[test]
fn round_trip_exact() {
    for v in [
        Value::Counter(7),
        Value::Gauge(-3),
        Value::Event("up".into()),
    ] {
        let o = rec(1, 42, "latency_ns", v.clone());
        let b = o.canonical_bytes();
        assert_eq!(Observation::parse(&b).unwrap(), o);
    }
}

#[test]
fn gauge_round_trips_negative() {
    let o = rec(0, 0, "queue_depth", Value::Gauge(i64::MIN));
    assert_eq!(Observation::parse(&o.canonical_bytes()).unwrap(), o);
}

#[test]
fn obs_trailing_bytes_rejected() {
    let mut b = rec(0, 0, "m", Value::Counter(1)).canonical_bytes();
    b.push(0);
    assert!(matches!(
        Observation::parse(&b),
        Err(ObsError::MalformedRecord { message, .. }) if message.contains("trailing")
    ));
}

#[test]
fn unknown_tags_rejected() {
    let mut bytes: Vec<u8> = Vec::new();
    bytes.extend_from_slice(&0u64.to_le_bytes());
    bytes.extend_from_slice(&0u64.to_le_bytes());
    bytes.extend_from_slice(&64u64.to_le_bytes());
    bytes.extend_from_slice("a".repeat(64).as_bytes());
    bytes.extend_from_slice(&9u64.to_le_bytes());
    assert!(matches!(
        Observation::parse(&bytes),
        Err(ObsError::MalformedRecord { message, .. }) if message.contains("subject tag")
    ));
}

#[test]
fn metric_and_subject_validation() {
    assert!(matches!(
        Subject::parse("a/b/c"),
        Err(ObsError::InvalidSubject { .. })
    ));
    assert!(Subject::parse("web").is_ok());
    assert!(Observation::new(
        0,
        0,
        "ab".repeat(32),
        Subject::parse("web").unwrap(),
        "has space",
        Value::Counter(1)
    )
    .is_err());
    assert!(matches!(
        Observation::new(
            0,
            0,
            "ab".repeat(32),
            Subject::parse("web").unwrap(),
            "ok",
            Value::Event("x".repeat(257))
        ),
        Err(ObsError::EventTooLong { bytes: 257 })
    ));
}

#[test]
fn ordering_rule() {
    let a = rec(0, 10, "m", Value::Counter(1));
    let b = rec(1, 10, "m", Value::Counter(2));
    let c = rec(2, 9, "m", Value::Counter(3));
    let mut v = vec![a.clone(), b.clone(), c.clone()];
    v.sort_by_key(order_key);
    assert_eq!(v, vec![c, a, b], "(time_ns, seq) ascending");
}

#[test]
fn subject_association() {
    let mut net = Network::empty();
    net.add_node("web", Metadata::new()).unwrap();
    net.add_interface("web", "eth0").unwrap();
    assert!(Subject::parse("web").unwrap().exists_in(&net));
    assert!(Subject::parse("web/eth0").unwrap().exists_in(&net));
    assert!(!Subject::parse("web/eth1").unwrap().exists_in(&net));
    assert!(!Subject::parse("ghost").unwrap().exists_in(&net));
}
