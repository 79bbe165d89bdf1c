use rahn::canonical::{canonical_bytes, parse_canonical, CANONICAL_FORMAT_VERSION};
use rahn::model::{Endpoint, Metadata, ModelError, Network, State};

fn sample_state() -> State {
    let mut net = Network::empty();
    net.add_node("db-1", Metadata::new()).unwrap();
    let mut md = Metadata::new();
    md.insert("role".to_owned(), "api".to_owned());
    md.insert("zone".to_owned(), "a".to_owned());
    net.add_node("api-1", md).unwrap();
    net.add_interface("api-1", "eth0").unwrap();
    net.add_interface("db-1", "eth0").unwrap();
    net.add_link(
        Endpoint::new("api-1", "eth0").unwrap(),
        Endpoint::new("db-1", "eth0").unwrap(),
    )
    .unwrap();
    State { network: net }
}

/// A byte writer in the canonical layout, for forging inputs.
struct Forge {
    buf: Vec<u8>,
}

impl Forge {
    fn new() -> Self {
        Forge { buf: Vec::new() }
    }
    fn u16(&mut self, x: u16) {
        self.buf.extend_from_slice(&x.to_le_bytes());
    }
    fn u64(&mut self, x: u64) {
        self.buf.extend_from_slice(&x.to_le_bytes());
    }
    fn string(&mut self, s: &str) {
        self.u64(s.len() as u64);
        self.buf.extend_from_slice(s.as_bytes());
    }
    fn empty_metadata(&mut self) {
        self.u64(0);
    }
    /// A node with no metadata and the given interfaces.
    fn node(&mut self, id: &str, ifaces: &[&str]) {
        self.string(id);
        self.empty_metadata();
        self.u64(ifaces.len() as u64);
        for i in ifaces {
            self.string(i);
            self.empty_metadata();
        }
    }
    fn link(&mut self, a: (&str, &str), b: (&str, &str)) {
        self.string(a.0);
        self.string(a.1);
        self.string(b.0);
        self.string(b.1);
        self.empty_metadata();
    }
}

#[test]
fn round_trip_is_exact() {
    let s = sample_state();
    let bytes = canonical_bytes(&s);
    let parsed = parse_canonical(&bytes).unwrap();
    assert_eq!(parsed, s);
    // Idempotence: re-encoding the parsed value reproduces the bytes.
    assert_eq!(canonical_bytes(&parsed), bytes);
}

#[test]
fn empty_state_round_trips() {
    let s = State::empty();
    let bytes = canonical_bytes(&s);
    assert_eq!(parse_canonical(&bytes).unwrap(), s);
}

#[test]
fn trailing_bytes_are_rejected() {
    let mut bytes = canonical_bytes(&sample_state());
    bytes.push(0);
    let err = parse_canonical(&bytes).unwrap_err();
    assert!(err.message.contains("trailing"));
}

#[test]
fn unknown_version_is_rejected() {
    let mut bytes = canonical_bytes(&sample_state());
    bytes[0] = 0xFF;
    assert!(parse_canonical(&bytes).is_err());
}

#[test]
fn truncated_input_is_rejected() {
    let bytes = canonical_bytes(&sample_state());
    for cut in [0, 1, 2, 5, 9, 17, bytes.len() - 1] {
        assert!(
            parse_canonical(&bytes[..cut]).is_err(),
            "cut at {cut} must fail"
        );
    }
}

#[test]
fn unsorted_links_are_rejected() {
    // Two links written out of order: (a, c) before (a, b).
    let mut w = Forge::new();
    w.u16(CANONICAL_FORMAT_VERSION);
    w.u64(3);
    w.node("a", &["eth0"]);
    w.node("b", &["eth0"]);
    w.node("c", &["eth0"]);
    w.u64(2);
    w.link(("a", "eth0"), ("c", "eth0"));
    w.link(("a", "eth0"), ("b", "eth0"));
    let err = parse_canonical(&w.buf).unwrap_err();
    assert!(err.message.contains("ascending"), "unexpected: {err:?}");
}

#[test]
fn dangling_link_endpoint_is_rejected() {
    let mut w = Forge::new();
    w.u16(CANONICAL_FORMAT_VERSION);
    w.u64(1); // nodes: a only
    w.node("a", &["eth0"]);
    w.u64(1); // link a-b, but b does not exist
    w.link(("a", "eth0"), ("b", "eth0"));
    let err = parse_canonical(&w.buf).unwrap_err();
    assert!(
        err.message.contains("dangling") || err.message.contains("exist"),
        "unexpected: {err:?}"
    );
}

#[test]
fn unnormalized_endpoints_are_rejected() {
    let mut w = Forge::new();
    w.u16(CANONICAL_FORMAT_VERSION);
    w.u64(2);
    w.node("a", &["eth0"]);
    w.node("b", &["eth0"]);
    w.u64(1);
    w.link(("b", "eth0"), ("a", "eth0")); // reversed: a<b required
    let err = parse_canonical(&w.buf).unwrap_err();
    assert!(err.message.contains("normalized"), "unexpected: {err:?}");
}

#[test]
fn self_loop_is_unrepresentable() {
    let mut net = Network::empty();
    net.add_node("a", Metadata::new()).unwrap();
    net.add_interface("a", "eth0").unwrap();
    let e = Endpoint::new("a", "eth0").unwrap();
    assert_eq!(
        net.add_link(e.clone(), e),
        Err(ModelError::SelfLoop { endpoint: "a/eth0".into() })
    );
}
