//! Deterministic observations: `{ seq, time_ns, state_ref, subject, metric,
//! value }` records with a canonical, float-free encoding, and the framing
//! of the append-only observation log. Timestamps are supplied by the
//! caller; `seq` is the ingest position.
use vstd::prelude::*;
use crate::text::{owned, sbytes};
use crate::model::{
    Network, Endpoint, valid_id, validate_id, valid_id_bytes, slash_from, push_str, id_reason,
};
use crate::canonical::{
    enc_u64, enc_str, put_u64, put_str, read_u64, read_str, is_at, lemma_at_split, lemma_u64_facts,
    lemma_u64_at, lemma_part_at,
};
use crate::seqs::{concat, lemma_concat_push};
use crate::describe::{debug_str, debug_str_spec, decimal, u64_text, i64_text, signed_decimal, decimal_text};

verus! {

/// Target of an observation, addressed as in the topology model.
#[derive(Debug, Clone, PartialEq, Eq)]
pub enum Subject {
    Node(String),
    Interface { node: String, iface: String },
}

/// The view of a subject.
pub enum SubjectV {
    Node(Seq<char>),
    Interface(Seq<char>, Seq<char>),
}

impl View for Subject {
    type V = SubjectV;

    open spec fn view(&self) -> SubjectV {
        match self {
            Subject::Node(id) => SubjectV::Node(id@),
            Subject::Interface { node, iface } => SubjectV::Interface(node@, iface@),
        }
    }
}

/// Exact, float-free observation value.
#[derive(Debug, Clone, PartialEq, Eq)]
pub enum Value {
    /// A count, non-decreasing by convention.
    Counter(u64),
    /// A signed instantaneous reading.
    Gauge(i64),
    /// Discrete event text, at most 256 bytes of UTF-8.
    Event(String),
}

/// The view of a value.
pub enum ValueV {
    Counter(u64),
    Gauge(i64),
    Event(Seq<char>),
}

impl View for Value {
    type V = ValueV;

    open spec fn view(&self) -> ValueV {
        match self {
            Value::Counter(x) => ValueV::Counter(*x),
            Value::Gauge(x) => ValueV::Gauge(*x),
            Value::Event(t) => ValueV::Event(t@),
        }
    }
}

/// Longest event text, in bytes.
pub const MAX_EVENT_BYTES: usize = 256;

/// Structured rejection of an observation.
#[derive(Debug, Clone, PartialEq, Eq)]
pub enum ObsError {
    InvalidSubject { subject: String },
    InvalidMetric { metric: String, reason: String },
    EventTooLong { bytes: usize },
    MalformedRecord { offset: usize, message: String },
    /// The subject does not exist in the referenced state.
    UnknownSubject { subject: String },
}

/// An immutable observation record.
#[derive(Debug, Clone, PartialEq, Eq)]
pub struct Observation {
    /// Ingest position (count of prior records).
    pub seq: u64,
    /// Caller-supplied nanoseconds since the UNIX epoch.
    pub time_ns: u64,
    /// Hex id of the state the record was validated against.
    pub state_ref: String,
    pub subject: Subject,
    pub metric: String,
    pub value: Value,
}

/// The view of an observation.
pub struct ObservationV {
    pub seq: u64,
    pub time_ns: u64,
    pub state_ref: Seq<char>,
    pub subject: SubjectV,
    pub metric: Seq<char>,
    pub value: ValueV,
}

impl View for Observation {
    type V = ObservationV;

    open spec fn view(&self) -> ObservationV {
        ObservationV {
            seq: self.seq,
            time_ns: self.time_ns,
            state_ref: self.state_ref@,
            subject: self.subject@,
            metric: self.metric@,
            value: self.value@,
        }
    }
}

/// A subject text is well formed: `node` or `node/iface`, each part a
/// valid identifier.
pub open spec fn subject_valid(s: Seq<char>) -> bool {
    let b = sbytes(s);
    let p = slash_from(b, 0);
    if p == -1 {
        valid_id_bytes(b)
    } else {
        valid_id_bytes(b.take(p)) && valid_id_bytes(b.skip(p + 1))
    }
}

/// `v` is what the subject text `s` denotes.
pub open spec fn subject_of(s: Seq<char>, v: SubjectV) -> bool {
    let b = sbytes(s);
    let p = slash_from(b, 0);
    match v {
        SubjectV::Node(id) => p == -1 && id == s,
        SubjectV::Interface(n, i) => p != -1 && sbytes(n) == b.take(p) && sbytes(i) == b.skip(p + 1),
    }
}

/// Whether a string has a `/`.
fn has_slash(s: &str) -> (r: bool)
    ensures
        r == (slash_from(sbytes(s@), 0) != -1),
{
    let b = s.as_bytes();
    let mut i: usize = 0;
    while i < b.len()
        invariant
            b@ == sbytes(s@),
            i <= b@.len(),
            slash_from(b@, 0) == slash_from(b@, i as nat),
        decreases b.len() - i,
    {
        if b[i] == 47 {
            return true;
        }
        i = i + 1;
    }
    false
}

impl Subject {
    /// Parse `node` or `node/iface`; anything else is an invalid subject.
    pub fn parse(s: &str) -> (r: Result<Subject, ObsError>)
        ensures
            subject_valid(s@) ==> (r matches Ok(x) && subject_of(s@, x@)),
            !subject_valid(s@) ==> (r matches Err(ObsError::InvalidSubject { subject })
                && subject@ == s@),
    {
        if !has_slash(s) {
            match validate_id(s) {
                Ok(()) => Ok(Subject::Node(owned(s))),
                Err(_) => Err(ObsError::InvalidSubject { subject: owned(s) }),
            }
        } else {
            match Endpoint::parse(s) {
                Ok(e) => Ok(Subject::Interface { node: e.node, iface: e.iface }),
                Err(_) => Err(ObsError::InvalidSubject { subject: owned(s) }),
            }
        }
    }

    /// Whether the subject exists in the network.
    pub fn exists_in(&self, net: &Network) -> (r: bool)
        requires
            net.wf(),
        ensures
            r == match self@ {
                SubjectV::Node(id) => net@.nodes.dom().contains(id),
                SubjectV::Interface(n, i) => net@.has_endpoint((n, i)),
            },
    {
        match self {
            Subject::Node(id) => net.node(id.as_str()).is_some(),
            Subject::Interface { node, iface } => match net.node(node.as_str()) {
                Some(n) => n.interface(iface.as_str()).is_some(),
                None => false,
            },
        }
    }

    /// The text form: `node/<id>` or `node/<node>/<iface>`.
    pub fn text(&self) -> (r: String)
        ensures
            r@ == subject_text(self@),
    {
        let mut s = owned("node/");
        match self {
            Subject::Node(id) => {
                push_str(&mut s, id.as_str());
            },
            Subject::Interface { node, iface } => {
                push_str(&mut s, node.as_str());
                push_str(&mut s, "/");
                push_str(&mut s, iface.as_str());
            },
        }
        s
    }
}

/// The text form of a subject.
pub open spec fn subject_text(s: SubjectV) -> Seq<char> {
    match s {
        SubjectV::Node(id) => "node/"@ + id,
        SubjectV::Interface(n, i) => "node/"@ + n + "/"@ + i,
    }
}

/// The text form of a value: `counter:<n>`, `gauge:<n>` or `event:<text>`.
pub open spec fn value_text(v: ValueV) -> Seq<char> {
    match v {
        ValueV::Counter(x) => "counter:"@ + decimal(x as nat),
        ValueV::Gauge(x) => "gauge:"@ + signed_decimal(x as int),
        ValueV::Event(t) => "event:"@ + t,
    }
}

impl Value {
    /// The kind of value.
    pub fn kind(&self) -> (r: &'static str)
        ensures
            r@ == match self@ {
                ValueV::Counter(_) => "counter"@,
                ValueV::Gauge(_) => "gauge"@,
                ValueV::Event(_) => "event"@,
            },
    {
        match self {
            Value::Counter(_) => "counter",
            Value::Gauge(_) => "gauge",
            Value::Event(_) => "event",
        }
    }

    /// The text form of the value.
    pub fn text(&self) -> (r: String)
        ensures
            r@ == value_text(self@),
    {
        match self {
            Value::Counter(x) => {
                let mut s = owned("counter:");
                let t = u64_text(*x);
                push_str(&mut s, t.as_str());
                s
            },
            Value::Gauge(x) => {
                let mut s = owned("gauge:");
                let t = i64_text(*x);
                push_str(&mut s, t.as_str());
                s
            },
            Value::Event(t) => {
                let mut s = owned("event:");
                push_str(&mut s, t.as_str());
                s
            },
        }
    }
}

/// The text of an observation rejection.
pub open spec fn obs_error_text(e: ObsError) -> Seq<char> {
    match e {
        ObsError::InvalidSubject { subject } => "invalid subject "@ + debug_str_spec(subject@)
            + " (expected node/<id> or node/<id>/<iface>)"@,
        ObsError::InvalidMetric { metric, reason } => "invalid metric name "@ + debug_str_spec(
            metric@,
        ) + ": "@ + reason@,
        ObsError::EventTooLong { bytes } => "event text is "@ + decimal(bytes as nat)
            + " bytes; limit is 256"@,
        ObsError::MalformedRecord { offset, message } => "malformed observation record at byte "@
            + decimal(offset as nat) + ": "@ + message@,
        ObsError::UnknownSubject { subject } => "subject "@ + subject@
            + " does not exist in the referenced state"@,
    }
}

impl ObsError {
    /// The human-readable text of the rejection.
    pub fn message(&self) -> (r: String)
        ensures
            r@ == obs_error_text(*self),
    {
        match self {
            ObsError::InvalidSubject { subject } => {
                let mut s = owned("invalid subject ");
                let q = debug_str(subject.as_str());
                push_str(&mut s, q.as_str());
                push_str(&mut s, " (expected node/<id> or node/<id>/<iface>)");
                s
            },
            ObsError::InvalidMetric { metric, reason } => {
                let mut s = owned("invalid metric name ");
                let q = debug_str(metric.as_str());
                push_str(&mut s, q.as_str());
                push_str(&mut s, ": ");
                push_str(&mut s, reason.as_str());
                s
            },
            ObsError::EventTooLong { bytes } => {
                let mut s = owned("event text is ");
                let n = decimal_text(*bytes);
                push_str(&mut s, n.as_str());
                push_str(&mut s, " bytes; limit is 256");
                s
            },
            ObsError::MalformedRecord { offset, message } => {
                let mut s = owned("malformed observation record at byte ");
                let n = decimal_text(*offset);
                push_str(&mut s, n.as_str());
                push_str(&mut s, ": ");
                push_str(&mut s, message.as_str());
                s
            },
            ObsError::UnknownSubject { subject } => {
                let mut s = owned("subject ");
                push_str(&mut s, subject.as_str());
                push_str(&mut s, " does not exist in the referenced state");
                s
            },
        }
    }
}

/// The value fits its bounds: event text at most 256 bytes.
pub open spec fn value_ok(v: ValueV) -> bool {
    match v {
        ValueV::Event(t) => sbytes(t).len() <= 256,
        _ => true,
    }
}

/// An observation is acceptable: a valid metric name and a bounded value.
pub open spec fn obs_ok(o: ObservationV) -> bool {
    valid_id(o.metric) && value_ok(o.value)
}

/// The rejection `Observation::new` gives for a metric and value.
pub open spec fn new_rejection(metric: Seq<char>, value: ValueV, e: ObsError) -> bool {
    if !valid_id(metric) {
        e matches ObsError::InvalidMetric { metric: m, reason } && m@ == metric && reason@
            == "invalid identifier "@ + debug_str_spec(metric) + ": "@ + id_reason(metric)
    } else {
        match value {
            ValueV::Event(t) => e matches ObsError::EventTooLong { bytes } && bytes == sbytes(
                t,
            ).len(),
            _ => false,
        }
    }
}

/// The 64-bit word a gauge is stored as (two's complement).
pub open spec fn gauge_word(x: i64) -> nat {
    if x >= 0 {
        x as nat
    } else {
        (x + 0x1_0000_0000_0000_0000) as nat
    }
}

/// Canonical bytes of a subject: tag 1 and the id, or tag 2, node, iface.
pub open spec fn enc_subject(s: SubjectV) -> Seq<u8> {
    match s {
        SubjectV::Node(id) => enc_u64(1) + enc_str(id),
        SubjectV::Interface(n, i) => enc_u64(2) + enc_str(n) + enc_str(i),
    }
}

/// Canonical bytes of a value: tag then payload.
pub open spec fn enc_value(v: ValueV) -> Seq<u8> {
    match v {
        ValueV::Counter(x) => enc_u64(1) + enc_u64(x as nat),
        ValueV::Gauge(x) => enc_u64(2) + enc_u64(gauge_word(x)),
        ValueV::Event(t) => enc_u64(3) + enc_str(t),
    }
}

/// Canonical bytes of an observation: seq, time, state ref, subject,
/// metric, value.
pub open spec fn enc_obs(o: ObservationV) -> Seq<u8> {
    enc_u64(o.seq as nat) + enc_u64(o.time_ns as nat) + enc_str(o.state_ref) + enc_subject(o.subject)
        + enc_str(o.metric) + enc_value(o.value)
}

/// The malformed-record error for a failed low-level read.
fn malformed(e: crate::canonical::CanonicalError) -> (r: ObsError)
    ensures
        r matches ObsError::MalformedRecord { offset, message } && offset == e.offset && message@
            == e.message@,
{
    ObsError::MalformedRecord { offset: e.offset, message: e.message }
}

/// A malformed-record error with a message.
fn malformed_at(offset: usize, message: String) -> (r: ObsError)
    ensures
        r matches ObsError::MalformedRecord { offset: o, message: m } && o == offset && m@
            == message@,
{
    ObsError::MalformedRecord { offset, message }
}

/// `prefix` followed by a number.
fn tagged(prefix: &str, t: u64) -> (r: String)
    ensures
        r@ == prefix@ + decimal(t as nat),
{
    let mut s = owned(prefix);
    let n = u64_text(t);
    push_str(&mut s, n.as_str());
    s
}

/// Read a subject.
fn read_subject(b: &[u8], pos: usize) -> (r: Result<(Subject, usize), ObsError>)
    requires
        pos <= b@.len(),
    ensures
        r matches Ok((s, p)) ==> p == pos + enc_subject(s@).len() && is_at(b@, pos as int, enc_subject(s@)),
        r matches Err(e) ==> e is MalformedRecord,
        forall|t: SubjectV| #[trigger]
            is_at(b@, pos as int, enc_subject(t)) ==> (r matches Ok((s, _)) && s@ == t),
        forall|k: u64| #[trigger]
            is_at(b@, pos as int, enc_u64(k as nat)) && k != 1 && k != 2 ==> (r matches Err(
                ObsError::MalformedRecord { offset, message },
            ) && offset == pos + 8 && message@ == "unknown subject tag "@ + decimal(k as nat)),
{
    proof {
        lemma_u64_facts();
        assert forall|t: SubjectV| #[trigger] is_at(b@, pos as int, enc_subject(t)) implies (match t {
            SubjectV::Node(id) => is_at(b@, pos as int, enc_u64(1)) && is_at(b@, pos + 8, enc_str(id)),
            SubjectV::Interface(n, i) => is_at(b@, pos as int, enc_u64(2)) && is_at(b@, pos + 8, enc_str(n))
                && is_at(b@, pos + 8 + enc_str(n).len(), enc_str(i)),
        }) by {
            match t {
                SubjectV::Node(id) => {
                    lemma_at_split(b@, pos as int, enc_u64(1), enc_str(id));
                },
                SubjectV::Interface(n, i) => {
                    lemma_at_split(b@, pos as int, enc_u64(2) + enc_str(n), enc_str(i));
                    lemma_at_split(b@, pos as int, enc_u64(2), enc_str(n));
                },
            }
        }
    }
    let (tag, p) = match read_u64(b, pos) {
        Ok(x) => x,
        Err(e) => {
            return Err(malformed(e));
        },
    };
    proof {
        assert forall|k: u64| #[trigger] is_at(b@, pos as int, enc_u64(k as nat)) implies k == tag by {
            lemma_u64_at(b@, pos as int, tag as nat, k as nat);
        }
        assert forall|t: SubjectV| #[trigger] is_at(b@, pos as int, enc_subject(t)) implies match t {
            SubjectV::Node(_) => tag == 1,
            SubjectV::Interface(_, _) => tag == 2,
        } by {
            match t {
                SubjectV::Node(id) => {
                    lemma_u64_at(b@, pos as int, tag as nat, 1);
                },
                SubjectV::Interface(n, i) => {
                    lemma_u64_at(b@, pos as int, tag as nat, 2);
                },
            }
        }
    }
    if tag == 1 {
        let (id, q) = match read_str(b, p) {
            Ok(x) => x,
            Err(e) => {
                return Err(malformed(e));
            },
        };
        proof {
            lemma_at_split(b@, pos as int, enc_u64(1), enc_str(id@));
        }
        Ok((Subject::Node(id), q))
    } else if tag == 2 {
        let (node, q) = match read_str(b, p) {
            Ok(x) => x,
            Err(e) => {
                return Err(malformed(e));
            },
        };
        let ghost q0 = q;
        let (iface, q2) = match read_str(b, q) {
            Ok(x) => x,
            Err(e) => {
                proof {
                    assert forall|t: SubjectV| #[trigger] is_at(b@, pos as int, enc_subject(t)) implies false by {
                        if let SubjectV::Interface(n, i) = t {
                            assert(node@ == n);
                            assert(is_at(b@, q0 as int, enc_str(i)));
                        }
                    }
                }
                return Err(malformed(e));
            },
        };
        proof {
            lemma_at_split(b@, pos as int, enc_u64(2), enc_str(node@));
            lemma_at_split(b@, pos as int, enc_u64(2) + enc_str(node@), enc_str(iface@));
            assert forall|t: SubjectV| #[trigger] is_at(b@, pos as int, enc_subject(t)) implies t
                == SubjectV::Interface(node@, iface@) by {
                if let SubjectV::Interface(n, i) = t {
                    assert(node@ == n);
                    assert(is_at(b@, q0 as int, enc_str(i)));
                }
            }
        }
        Ok((Subject::Interface { node, iface }, q2))
    } else {
        Err(malformed_at(p, tagged("unknown subject tag ", tag)))
    }
}

/// Read a value.
fn read_value(b: &[u8], pos: usize) -> (r: Result<(Value, usize), ObsError>)
    requires
        pos <= b@.len(),
    ensures
        r matches Ok((v, p)) ==> p == pos + enc_value(v@).len() && is_at(b@, pos as int, enc_value(v@)),
        r matches Err(e) ==> e is MalformedRecord,
        forall|t: ValueV| #[trigger]
            is_at(b@, pos as int, enc_value(t)) ==> (r matches Ok((v, _)) && v@ == t),
{
    proof {
        lemma_u64_facts();
        assert forall|t: ValueV| #[trigger] is_at(b@, pos as int, enc_value(t)) implies (match t {
            ValueV::Counter(x) => is_at(b@, pos as int, enc_u64(1)) && is_at(b@, pos + 8, enc_u64(x as nat)),
            ValueV::Gauge(x) => is_at(b@, pos as int, enc_u64(2)) && is_at(b@, pos + 8, enc_u64(gauge_word(x))),
            ValueV::Event(s) => is_at(b@, pos as int, enc_u64(3)) && is_at(b@, pos + 8, enc_str(s)),
        }) by {
            match t {
                ValueV::Counter(x) => {
                    lemma_at_split(b@, pos as int, enc_u64(1), enc_u64(x as nat));
                },
                ValueV::Gauge(x) => {
                    lemma_at_split(b@, pos as int, enc_u64(2), enc_u64(gauge_word(x)));
                },
                ValueV::Event(s) => {
                    lemma_at_split(b@, pos as int, enc_u64(3), enc_str(s));
                },
            }
        }
    }
    let (tag, p) = match read_u64(b, pos) {
        Ok(x) => x,
        Err(e) => {
            return Err(malformed(e));
        },
    };
    proof {
        assert forall|t: ValueV| #[trigger] is_at(b@, pos as int, enc_value(t)) implies match t {
            ValueV::Counter(_) => tag == 1,
            ValueV::Gauge(_) => tag == 2,
            ValueV::Event(_) => tag == 3,
        } by {
            match t {
                ValueV::Counter(_) => {
                    lemma_u64_at(b@, pos as int, tag as nat, 1);
                },
                ValueV::Gauge(_) => {
                    lemma_u64_at(b@, pos as int, tag as nat, 2);
                },
                ValueV::Event(_) => {
                    lemma_u64_at(b@, pos as int, tag as nat, 3);
                },
            }
        }
    }
    if tag == 1 {
        let (x, q) = match read_u64(b, p) {
            Ok(x) => x,
            Err(e) => {
                return Err(malformed(e));
            },
        };
        proof {
            lemma_at_split(b@, pos as int, enc_u64(1), enc_u64(x as nat));
            assert forall|t: ValueV| #[trigger] is_at(b@, pos as int, enc_value(t)) implies t
                == ValueV::Counter(x) by {
                if let ValueV::Counter(y) = t {
                    lemma_u64_at(b@, p as int, x as nat, y as nat);
                }
            }
        }
        Ok((Value::Counter(x), q))
    } else if tag == 2 {
        let (raw, q) = match read_u64(b, p) {
            Ok(x) => x,
            Err(e) => {
                return Err(malformed(e));
            },
        };
        let g: i64 = if raw <= 0x7fff_ffff_ffff_ffff {
            raw as i64
        } else {
            ((raw as i128) - 0x1_0000_0000_0000_0000i128) as i64
        };
        proof {
            assert(gauge_word(g) == raw as nat);
            lemma_at_split(b@, pos as int, enc_u64(2), enc_u64(gauge_word(g)));
            assert forall|t: ValueV| #[trigger] is_at(b@, pos as int, enc_value(t)) implies t
                == ValueV::Gauge(g) by {
                if let ValueV::Gauge(y) = t {
                    lemma_u64_at(b@, p as int, raw as nat, gauge_word(y));
                }
            }
        }
        Ok((Value::Gauge(g), q))
    } else if tag == 3 {
        let (t, q) = match read_str(b, p) {
            Ok(x) => x,
            Err(e) => {
                return Err(malformed(e));
            },
        };
        proof {
            lemma_at_split(b@, pos as int, enc_u64(3), enc_str(t@));
        }
        Ok((Value::Event(t), q))
    } else {
        Err(malformed_at(p, tagged("unknown value tag ", tag)))
    }
}

impl Observation {
    /// Build a record, validating the metric name and the value's bounds.
    pub fn new(
        seq: u64,
        time_ns: u64,
        state_ref: String,
        subject: Subject,
        metric: &str,
        value: Value,
    ) -> (r: Result<Observation, ObsError>)
        ensures
            r is Ok <==> valid_id(metric@) && value_ok(value@),
            r matches Ok(o) ==> o@ == (ObservationV {
                seq,
                time_ns,
                state_ref: state_ref@,
                subject: subject@,
                metric: metric@,
                value: value@,
            }),
            r matches Err(e) ==> new_rejection(metric@, value@, e),
    {
        match validate_id(metric) {
            Ok(()) => {},
            Err(e) => {
                let reason = e.message();
                return Err(ObsError::InvalidMetric { metric: owned(metric), reason });
            },
        }
        if let Value::Event(text) = &value {
            let n = text.as_str().as_bytes().len();
            if n > MAX_EVENT_BYTES {
                return Err(ObsError::EventTooLong { bytes: n });
            }
        }
        Ok(Observation { seq, time_ns, state_ref, subject, metric: owned(metric), value })
    }

    /// Canonical encoding: seq, time, state ref, subject tag and parts,
    /// metric, value tag and payload.
    pub fn canonical_bytes(&self) -> (r: Vec<u8>)
        ensures
            r@ == enc_obs(self@),
    {
        let mut buf: Vec<u8> = Vec::new();
        put_u64(&mut buf, self.seq);
        put_u64(&mut buf, self.time_ns);
        put_str(&mut buf, self.state_ref.as_str());
        match &self.subject {
            Subject::Node(id) => {
                put_u64(&mut buf, 1);
                put_str(&mut buf, id.as_str());
            },
            Subject::Interface { node, iface } => {
                put_u64(&mut buf, 2);
                put_str(&mut buf, node.as_str());
                put_str(&mut buf, iface.as_str());
            },
        }
        put_str(&mut buf, self.metric.as_str());
        match &self.value {
            Value::Counter(x) => {
                put_u64(&mut buf, 1);
                put_u64(&mut buf, *x);
            },
            Value::Gauge(x) => {
                put_u64(&mut buf, 2);
                let w: u64 = if *x >= 0 {
                    *x as u64
                } else {
                    ((*x as i128) + 0x1_0000_0000_0000_0000i128) as u64
                };
                put_u64(&mut buf, w);
            },
            Value::Event(t) => {
                put_u64(&mut buf, 3);
                put_str(&mut buf, t.as_str());
            },
        }
        proof {
            assert(buf@ =~= enc_obs(self@));
        }
        buf
    }

    /// Strict parse: the bytes must be exactly the canonical encoding of
    /// an acceptable record.
    pub fn parse(bytes: &[u8]) -> (r: Result<Observation, ObsError>)
        ensures
            r matches Ok(o) ==> enc_obs(o@) == bytes@ && obs_ok(o@),
            forall|t: ObservationV| #[trigger]
                enc_obs(t) == bytes@ ==> if obs_ok(t) {
                    r matches Ok(o) && o@ == t
                } else {
                    r matches Err(e) && new_rejection(t.metric, t.value, e)
                },
            (forall|t: ObservationV| #[trigger] enc_obs(t) != bytes@) ==> (r matches Err(e)
                && e is MalformedRecord),
            forall|t: ObservationV| #[trigger]
                is_at(bytes@, 0, enc_obs(t)) && enc_obs(t).len() < bytes@.len() ==> (r matches Err(
                    ObsError::MalformedRecord { offset, message },
                ) && offset == enc_obs(t).len() && message@ == "trailing bytes"@),
            forall|sq: u64, tm: u64, sr: Seq<char>, k: u64| #[trigger]
                is_at(bytes@, 0, enc_u64(sq as nat) + enc_u64(tm as nat) + enc_str(sr) + enc_u64(k as nat))
                    && k != 1 && k != 2 ==> (r matches Err(ObsError::MalformedRecord { offset, message })
                    && offset == 24 + enc_str(sr).len() && message@ == "unknown subject tag "@ + decimal(
                    k as nat,
                )),
    {
        let b = bytes;
        proof {
            lemma_u64_facts();
            assert forall|sq: u64, tm: u64, sr: Seq<char>, k: u64| #[trigger]
                is_at(b@, 0, enc_u64(sq as nat) + enc_u64(tm as nat) + enc_str(sr) + enc_u64(k as nat)) implies
                is_at(b@, 16, enc_str(sr)) && is_at(b@, 16 + enc_str(sr).len() as int, enc_u64(k as nat)) by {
                let x1 = enc_u64(sq as nat) + enc_u64(tm as nat);
                lemma_at_split(b@, 0, x1 + enc_str(sr), enc_u64(k as nat));
                lemma_at_split(b@, 0, x1, enc_str(sr));
            }
            assert forall|t: ObservationV| #[trigger] enc_obs(t) == b@ implies is_at(b@, 0, enc_obs(t)) by {
                assert(b@.subrange(0, b@.len() as int) =~= b@);
            }
            assert forall|t: ObservationV| #[trigger] is_at(b@, 0, enc_obs(t)) implies {
                let p2: int = 16int + enc_str(t.state_ref).len();
                let p3: int = p2 + enc_subject(t.subject).len();
                let p4: int = p3 + enc_str(t.metric).len();
                &&& is_at(b@, 0, enc_u64(t.seq as nat))
                &&& is_at(b@, 8, enc_u64(t.time_ns as nat))
                &&& is_at(b@, 16, enc_str(t.state_ref))
                &&& is_at(b@, p2, enc_subject(t.subject))
                &&& is_at(b@, p3, enc_str(t.metric))
                &&& is_at(b@, p4, enc_value(t.value))
                &&& p4 + enc_value(t.value).len() == enc_obs(t).len()
            } by {
                let a1 = enc_u64(t.seq as nat);
                let a2 = a1 + enc_u64(t.time_ns as nat);
                let a3 = a2 + enc_str(t.state_ref);
                let a4 = a3 + enc_subject(t.subject);
                let a5 = a4 + enc_str(t.metric);
                assert(enc_obs(t) == a5 + enc_value(t.value));
                lemma_at_split(b@, 0, a5, enc_value(t.value));
                lemma_at_split(b@, 0, a4, enc_str(t.metric));
                lemma_at_split(b@, 0, a3, enc_subject(t.subject));
                lemma_at_split(b@, 0, a2, enc_str(t.state_ref));
                lemma_at_split(b@, 0, a1, enc_u64(t.time_ns as nat));
            }
        }
        let (seq, p1) = match read_u64(b, 0) {
            Ok(x) => x,
            Err(e) => {
                return Err(malformed(e));
            },
        };
        let (time_ns, p2) = match read_u64(b, p1) {
            Ok(x) => x,
            Err(e) => {
                return Err(malformed(e));
            },
        };
        let (state_ref, p3) = match read_str(b, p2) {
            Ok(x) => x,
            Err(e) => {
                return Err(malformed(e));
            },
        };
        let ghost g3 = p3;
        proof {
            assert forall|sq: u64, tm: u64, sr: Seq<char>, k: u64| #[trigger]
                is_at(b@, 0, enc_u64(sq as nat) + enc_u64(tm as nat) + enc_str(sr) + enc_u64(k as nat)) implies
                p3 == 16 + enc_str(sr).len() by {
                assert(is_at(b@, 16, enc_str(sr)));
            }
            assert forall|t: ObservationV| #[trigger] is_at(b@, 0, enc_obs(t)) implies t.seq == seq
                && t.time_ns == time_ns && t.state_ref == state_ref@ && is_at(
                b@,
                p3 as int,
                enc_subject(t.subject),
            ) by {
                lemma_u64_at(b@, 0, seq as nat, t.seq as nat);
                lemma_u64_at(b@, 8, time_ns as nat, t.time_ns as nat);
            }
        }
        let (subject, p4) = match read_subject(b, p3) {
            Ok(x) => x,
            Err(e) => {
                return Err(e);
            },
        };
        let (metric, p5) = match read_str(b, p4) {
            Ok(x) => x,
            Err(e) => {
                proof {
                    assert forall|t: ObservationV| #[trigger] is_at(b@, 0, enc_obs(t)) implies false by {
                        assert(t.subject == subject@);
                        assert(is_at(b@, p4 as int, enc_str(t.metric)));
                    }
                }
                return Err(malformed(e));
            },
        };
        let ghost g5 = p5;
        proof {
            assert forall|t: ObservationV| #[trigger] is_at(b@, 0, enc_obs(t)) implies t.subject == subject@
                && t.metric == metric@ && is_at(b@, p5 as int, enc_value(t.value)) by {
                assert(t.subject == subject@);
                assert(is_at(b@, p4 as int, enc_str(t.metric)));
            }
        }
        let (value, p6) = match read_value(b, p5) {
            Ok(x) => x,
            Err(e) => {
                return Err(e);
            },
        };
        proof {
            assert forall|t: ObservationV| #[trigger] is_at(b@, 0, enc_obs(t)) implies t.value == value@
                && p6 == enc_obs(t).len() by {
                assert(is_at(b@, g5 as int, enc_value(t.value)));
            }
        }
        if p6 != b.len() {
            return Err(malformed_at(p6, owned("trailing bytes")));
        }
        let ghost parsed = ObservationV {
            seq,
            time_ns,
            state_ref: state_ref@,
            subject: subject@,
            metric: metric@,
            value: value@,
        };
        proof {
            let a1 = enc_u64(seq as nat);
            let a2 = a1 + enc_u64(time_ns as nat);
            let a3 = a2 + enc_str(state_ref@);
            let a4 = a3 + enc_subject(subject@);
            let a5 = a4 + enc_str(metric@);
            lemma_at_split(b@, 0, a1, enc_u64(time_ns as nat));
            lemma_at_split(b@, 0, a2, enc_str(state_ref@));
            lemma_at_split(b@, 0, a3, enc_subject(subject@));
            lemma_at_split(b@, 0, a4, enc_str(metric@));
            lemma_at_split(b@, 0, a5, enc_value(value@));
            assert(enc_obs(parsed) == a5 + enc_value(value@));
            assert(b@.subrange(0, b@.len() as int) =~= b@);
            assert(enc_obs(parsed) == b@);
            assert forall|t: ObservationV| #[trigger] enc_obs(t) == b@ implies t == parsed by {
                assert(t.subject == subject@);
                assert(t.value == value@);
            }
        }
        let r = Observation::new(seq, time_ns, state_ref, subject, metric.as_str(), value);
        r
    }
}

/// The total ordering rule: `(time_ns, seq)` ascending.
pub fn order_key(o: &Observation) -> (r: (u64, u64))
    ensures
        r == (o.time_ns, o.seq),
{
    (o.time_ns, o.seq)
}

/// One log frame: the record's length, then its canonical bytes.
pub open spec fn frame(payload: Seq<u8>) -> Seq<u8> {
    enc_u64(payload.len()) + payload
}

/// The bytes of an observation log holding the records in order.
pub open spec fn obs_log(os: Seq<ObservationV>) -> Seq<u8> {
    concat(os.map_values(|o: ObservationV| frame(enc_obs(o))))
}

/// The views of a list of observations.
pub open spec fn obs_views(v: Seq<Observation>) -> Seq<ObservationV> {
    v.map_values(|o: Observation| o@)
}

/// The frame of one record, to append to the log.
pub fn frame_observation(o: &Observation) -> (r: Vec<u8>)
    ensures
        r@ == frame(enc_obs(o@)),
{
    let payload = o.canonical_bytes();
    let mut out: Vec<u8> = Vec::new();
    put_u64(&mut out, payload.len() as u64);
    let ghost start = out@;
    let mut i: usize = 0;
    while i < payload.len()
        invariant
            i <= payload@.len(),
            out@ == start + payload@.take(i as int),
        decreases payload@.len() - i,
    {
        out.push(payload[i]);
        proof {
            assert(payload@.take(i + 1) =~= payload@.take(i as int).push(payload@[i as int]));
        }
        i = i + 1;
    }
    proof {
        assert(payload@.take(payload@.len() as int) =~= payload@);
    }
    out
}

/// After `k` records read up to `pos`, the next frame of any log that
/// matches the bytes stands at `pos`.
proof fn lemma_next_frame(b: Seq<u8>, os: Seq<ObservationV>, done: Seq<ObservationV>, pos: int)
    requires
        obs_log(os) == b,
        done == os.take(done.len() as int),
        done.len() < os.len(),
        pos == obs_log(done).len(),
    ensures
        is_at(b, pos, frame(enc_obs(os[done.len() as int]))),
        is_at(b, pos, enc_u64(enc_obs(os[done.len() as int]).len())),
        is_at(b, pos + 8, enc_obs(os[done.len() as int])),
        pos + 8 + enc_obs(os[done.len() as int]).len() <= b.len(),
{
    let k = done.len() as int;
    let parts = os.map_values(|o: ObservationV| frame(enc_obs(o)));
    assert(parts.take(k) =~= done.map_values(|o: ObservationV| frame(enc_obs(o))));
    assert(b.subrange(0, b.len() as int) =~= b);
    lemma_part_at(b, 0, parts, k);
    lemma_u64_facts();
    let x = enc_obs(os[k]);
    lemma_at_split(b, pos, enc_u64(x.len()), x);
}

/// Appending a frame to a log prefix found in `b` extends the prefix.
proof fn lemma_log_push(b: Seq<u8>, done: Seq<ObservationV>, o: ObservationV, pos: int)
    requires
        is_at(b, 0, obs_log(done)),
        pos == obs_log(done).len(),
        is_at(b, pos, frame(enc_obs(o))),
    ensures
        is_at(b, 0, obs_log(done.push(o))),
        obs_log(done.push(o)).len() == pos + frame(enc_obs(o)).len(),
{
    let old_parts = done.map_values(|x: ObservationV| frame(enc_obs(x)));
    let new_parts = done.push(o).map_values(|x: ObservationV| frame(enc_obs(x)));
    assert(new_parts =~= old_parts.push(frame(enc_obs(o))));
    lemma_concat_push(old_parts, frame(enc_obs(o)));
    lemma_at_split(b, 0, obs_log(done), frame(enc_obs(o)));
}

/// Read a whole observation log strictly, in stored order: every frame
/// must hold exactly one acceptable record, and nothing may follow the
/// last frame.
#[verifier::rlimit(40)]
pub fn decode_observations(bytes: &[u8]) -> (r: Result<Vec<Observation>, ObsError>)
    ensures
        r matches Ok(v) ==> obs_log(obs_views(v@)) == bytes@ && forall|i: int| 0 <= i < v@.len() ==> obs_ok(#[trigger] v@[i]@),
        forall|os: Seq<ObservationV>| #[trigger] obs_log(os) == bytes@ && (forall|i: int| 0 <= i < os.len() ==> obs_ok(#[trigger] os[i])) ==> (r matches Ok(v) && obs_views(v@) == os),
{
    let b = bytes;
    let mut out: Vec<Observation> = Vec::new();
    let mut pos: usize = 0;
    proof {
        lemma_u64_facts();
        assert(b@.len() == b.len());
        assert(obs_views(out@) =~= Seq::<ObservationV>::empty());
        assert(obs_log(Seq::<ObservationV>::empty()) =~= Seq::<u8>::empty());
        assert(b@.subrange(0, 0) =~= Seq::<u8>::empty());
    }
    while pos < b.len()
        invariant
            b@ == bytes@,
            b@.len() == b.len(),
            pos <= b@.len(),
            is_at(b@, 0, obs_log(obs_views(out@))),
            pos == obs_log(obs_views(out@)).len(),
            forall|i: int| 0 <= i < out@.len() ==> obs_ok(#[trigger] out@[i]@),
            forall|os: Seq<ObservationV>| #[trigger] obs_log(os) == b@ && (forall|i: int| 0 <= i < os.len() ==> obs_ok(#[trigger] os[i])) ==> out@.len() < os.len() + 1 && obs_views(out@) == os.take(out@.len() as int),
        decreases b@.len() - pos,
    {
        let ghost k = out@.len();
        let ghost done = obs_views(out@);
        proof {
            assert forall|os: Seq<ObservationV>| #[trigger] obs_log(os) == b@ && (forall|i: int| 0 <= i < os.len() ==> obs_ok(#[trigger] os[i])) implies k < os.len() by {
                if k >= os.len() {
                    assert(os.take(k as int) =~= os);
                    assert(pos == b@.len());
                }
            }
        }
        if b.len() - pos < 8 {
            proof {
                assert forall|os: Seq<ObservationV>| #[trigger] obs_log(os) == b@ && (forall|i: int| 0 <= i < os.len() ==> obs_ok(#[trigger] os[i])) implies false by {
                    lemma_next_frame(b@, os, done, pos as int);
                }
            }
            return Err(ObsError::MalformedRecord { offset: pos, message: owned("truncated frame length") });
        }
        let (len, p) = match read_u64(b, pos) {
            Ok(x) => x,
            Err(e) => {
                return Err(malformed(e));
            },
        };
        if len > (b.len() - p) as u64 {
            proof {
                assert forall|os: Seq<ObservationV>| #[trigger] obs_log(os) == b@ && (forall|i: int| 0 <= i < os.len() ==> obs_ok(#[trigger] os[i])) implies false by {
                    lemma_next_frame(b@, os, done, pos as int);
                    let x = enc_obs(os[k as int]);
                    lemma_u64_at(b@, pos as int, len as nat, x.len());
                }
            }
            return Err(ObsError::MalformedRecord { offset: p, message: owned("frame exceeds file size") });
        }
        let n = len as usize;
        let payload = vstd::slice::slice_subrange(b, p, p + n);
        let o = match Observation::parse(payload) {
            Ok(o) => o,
            Err(e) => {
                proof {
                    assert forall|os: Seq<ObservationV>| #[trigger] obs_log(os) == b@ && (forall|i: int| 0 <= i < os.len() ==> obs_ok(#[trigger] os[i])) implies false by {
                        lemma_next_frame(b@, os, done, pos as int);
                        let x = enc_obs(os[k as int]);
                        lemma_u64_at(b@, pos as int, len as nat, x.len());
                        assert(payload@ =~= x);
                        assert(obs_ok(os[k as int]));
                    }
                }
                return Err(e);
            },
        };
        let ghost before = out@;
        out.push(o);
        proof {
            lemma_u64_facts();
            assert(payload@ == b@.subrange(p as int, p + n));
            assert(enc_obs(o@) == payload@);
            assert(is_at(b@, p as int, payload@));
            lemma_at_split(b@, pos as int, enc_u64(n as nat), payload@);
            assert(is_at(b@, pos as int, frame(enc_obs(o@))));
            lemma_log_push(b@, done, o@, pos as int);
            assert(obs_views(out@) =~= done.push(o@));
            assert forall|i: int| 0 <= i < out@.len() implies obs_ok(#[trigger] out@[i]@) by {
                if i < before.len() {
                    assert(out@[i] == before[i]);
                }
            }
            assert forall|os: Seq<ObservationV>| #[trigger] obs_log(os) == b@ && (forall|i: int| 0 <= i < os.len() ==> obs_ok(#[trigger] os[i])) implies out@.len() < os.len() + 1 && obs_views(out@) == os.take(out@.len() as int) by {
                lemma_next_frame(b@, os, done, pos as int);
                let x = enc_obs(os[k as int]);
                lemma_u64_at(b@, pos as int, len as nat, x.len());
                assert(payload@ =~= x);
                assert(obs_ok(os[k as int]));
                assert(o@ == os[k as int]);
                assert(os.take(k as int + 1) =~= os.take(k as int).push(os[k as int]));
            }
        }
        pos = p + n;
    }
    proof {
        assert forall|os: Seq<ObservationV>| #[trigger] obs_log(os) == b@ && (forall|i: int| 0 <= i < os.len() ==> obs_ok(#[trigger] os[i])) implies obs_views(out@) == os by {
            let parts = os.map_values(|o: ObservationV| frame(enc_obs(o)));
            let k = out@.len();
            if k < os.len() {
                lemma_next_frame(b@, os, obs_views(out@), pos as int);
            }
            assert(os.take(os.len() as int) =~= os);
        }
        assert(b@.subrange(0, b@.len() as int) =~= b@);
    }
    Ok(out)
}

} // verus!
