//! The core object model: identifiers, metadata, interfaces, endpoints,
//! links, nodes, networks and states.
//!
//! Invariants kept by every operation:
//! - identifiers are non-empty, at most 64 bytes, ASCII alphanumeric plus
//!   `-`, `_`, `.` (the same rule for nodes, interfaces and metrics);
//! - interfaces are owned by nodes and uniquely named within them;
//! - links are undirected, connect interfaces, and are stored with their
//!   endpoints normalized so that `a < b`;
//! - links between two interfaces of one node are prohibited;
//! - links reference existing interfaces;
//! - every collection is kept sorted, so one network has one representation.
use vstd::prelude::*;
use vstd::utf8::*;
use vstd::string::StringSliceAdditionalSpecFns;
use crate::text::{
    group_str_order, owned, copy_string, sbytes, str_lt, str_compare, str_eq, Compared,
};
use crate::sorted_map::{SortedMap, SortKey, Dup};

verus! {

broadcast use group_str_order;

/// Maximum length in bytes of a node or interface identifier.
pub const MAX_ID_LEN: usize = 64;

/// A byte allowed in identifiers: ASCII alphanumeric, `-`, `_` or `.`.
pub open spec fn id_byte_ok(b: u8) -> bool {
    (48 <= b <= 57) || (65 <= b <= 90) || (97 <= b <= 122) || b == 45 || b == 95 || b == 46
}

/// The identifier rules, over the UTF-8 bytes.
pub open spec fn valid_id_bytes(b: Seq<u8>) -> bool {
    0 < b.len() <= 64 && forall|i: int| 0 <= i < b.len() ==> id_byte_ok(#[trigger] b[i])
}

/// The identifier rules.
pub open spec fn valid_id(s: Seq<char>) -> bool {
    valid_id_bytes(sbytes(s))
}

/// Why identifier bytes are rejected (the first rule they break).
pub open spec fn id_reason_bytes(b: Seq<u8>) -> Seq<char> {
    if b.len() == 0 {
        "must not be empty"@
    } else if b.len() > 64 {
        "exceeds 64 characters"@
    } else {
        "only ASCII alphanumeric, '-', '_', '.' are allowed"@
    }
}

/// Why an identifier is rejected (the first rule it breaks).
pub open spec fn id_reason(s: Seq<char>) -> Seq<char> {
    id_reason_bytes(sbytes(s))
}

/// Errors produced when constructing or changing model objects.
#[derive(Debug, Clone, PartialEq, Eq)]
pub enum ModelError {
    /// An identifier violates the identifier rules.
    InvalidId { id: String, reason: &'static str },
    /// A link whose endpoints are identical.
    SelfLoop { endpoint: String },
    /// A link between two interfaces of the same node.
    SameNodeLoop { node: String },
    /// The referenced node does not exist.
    NodeMissing { id: String },
    /// A node with this identifier already exists.
    NodeExists { id: String },
    /// The referenced interface does not exist on the node.
    InterfaceMissing { node: String, name: String },
    /// An interface with this name already exists on the node.
    InterfaceExists { node: String, name: String },
    /// The referenced link does not exist.
    LinkMissing { a: String, b: String },
    /// A link between these endpoints already exists.
    LinkExists { a: String, b: String },
    /// A node cannot be removed while links reference it.
    NodeInUse { id: String, links: Vec<(String, String)> },
    /// An interface cannot be removed while links reference it.
    InterfaceInUse { node: String, name: String, links: Vec<(String, String)> },
}

pub open spec fn is_invalid_id_error(e: ModelError, id: Seq<char>) -> bool {
    e matches ModelError::InvalidId { id: x, reason } && x@ == id && reason@ == id_reason(id)
}

fn id_byte_allowed(b: u8) -> (r: bool)
    ensures
        r == id_byte_ok(b),
{
    (b >= 48 && b <= 57) || (b >= 65 && b <= 90) || (b >= 97 && b <= 122) || b == 45 || b == 95
        || b == 46
}

/// Validate an object identifier (node and interface names, metrics).
pub fn validate_id(id: &str) -> (r: Result<(), ModelError>)
    ensures
        r is Ok <==> valid_id(id@),
        r matches Err(e) ==> is_invalid_id_error(e, id@),
{
    let b = id.as_bytes();
    if b.len() == 0 {
        return Err(ModelError::InvalidId { id: owned(id), reason: "must not be empty" });
    }
    if b.len() > MAX_ID_LEN {
        return Err(ModelError::InvalidId { id: owned(id), reason: "exceeds 64 characters" });
    }
    let mut i: usize = 0;
    while i < b.len()
        invariant
            b@ == sbytes(id@),
            0 < b@.len() <= 64,
            i <= b@.len(),
            forall|j: int| 0 <= j < i ==> id_byte_ok(#[trigger] b@[j]),
        decreases b.len() - i,
    {
        if !id_byte_allowed(b[i]) {
            return Err(
                ModelError::InvalidId {
                    id: owned(id),
                    reason: "only ASCII alphanumeric, '-', '_', '.' are allowed",
                },
            );
        }
        i = i + 1;
    }
    Ok(())
}

/// Key/value metadata attached to objects, ordered by key.
#[derive(Debug, Clone, PartialEq, Eq)]
pub struct Metadata {
    map: SortedMap<String, String>,
}

impl View for Metadata {
    type V = Map<Seq<char>, Seq<char>>;

    closed spec fn view(&self) -> Map<Seq<char>, Seq<char>> {
        self.map.map()
    }
}

impl Metadata {
    /// The entries in key order.
    pub closed spec fn entries(&self) -> Seq<(Seq<char>, Seq<char>)> {
        self.map.kv()
    }

    /// Keys strictly ascending.
    pub closed spec fn wf(&self) -> bool {
        self.map.wf()
    }

    /// The entries of well-formed metadata are its map, in ascending key
    /// order, and determine it.
    pub proof fn lemma_entries(&self)
        requires
            self.wf(),
        ensures
            forall|i: int, j: int|
                0 <= i < j < self.entries().len() ==> str_lt(
                    #[trigger] self.entries()[i].0,
                    #[trigger] self.entries()[j].0,
                ),
            forall|k: Seq<char>|
                #![trigger self@.dom().contains(k)]
                self@.dom().contains(k) <==> exists|i: int|
                    0 <= i < self.entries().len() && self.entries()[i].0 == k,
            forall|i: int|
                #![trigger self.entries()[i]]
                0 <= i < self.entries().len() ==> self@.dom().contains(self.entries()[i].0)
                    && self@[self.entries()[i].0] == self.entries()[i].1,
            self@.dom().finite(),
            self@.dom().len() == self.entries().len(),
    {
        self.map.lemma_view();
        assert forall|k: Seq<char>| #[trigger] self@.dom().contains(k) <==> exists|i: int|
            0 <= i < self.entries().len() && self.entries()[i].0 == k by {
            assert(self@ == self.map.map());
            assert(self.entries() == self.map.kv());
            if self.map.map().dom().contains(k) {
                let i = choose|i: int| 0 <= i < self.map.kv().len() && self.map.kv()[i].0 == k;
                assert(self.entries()[i].0 == k);
            }
        }
    }

    /// Well-formed metadata with the same map have the same entries.
    pub proof fn lemma_unique(&self, other: &Self)
        requires
            self.wf(),
            other.wf(),
            self@ == other@,
        ensures
            self.entries() == other.entries(),
    {
        self.map.lemma_same_map_same_kv(&other.map);
    }

    pub fn new() -> (r: Self)
        ensures
            r.wf(),
            r@ == Map::<Seq<char>, Seq<char>>::empty(),
            r.entries().len() == 0,
    {
        Metadata { map: SortedMap::new() }
    }

    /// Set a key, returning the value it replaced.
    pub fn insert(&mut self, key: String, value: String) -> (r: Option<String>)
        requires
            old(self).wf(),
        ensures
            final(self).wf(),
            final(self)@ == old(self)@.insert(key@, value@),
            r is Some <==> old(self)@.dom().contains(key@),
            r matches Some(v) ==> v@ == old(self)@[key@],
    {
        let prev = self.map.remove(&key);
        self.map.insert(key, value);
        proof {
            assert(self.map.map() =~= old(self)@.insert(key@, value@));
        }
        prev
    }

    pub fn get(&self, key: &str) -> (r: Option<&String>)
        requires
            self.wf(),
        ensures
            r is Some <==> self@.dom().contains(key@),
            r matches Some(v) ==> v@ == self@[key@],
    {
        let k = owned(key);
        self.map.get(&k)
    }

    pub fn len(&self) -> (n: usize)
        ensures
            n == self.entries().len(),
    {
        self.map.len()
    }

    pub fn is_empty(&self) -> (r: bool)
        requires
            self.wf(),
        ensures
            r == (self@.dom().len() == 0),
    {
        proof {
            self.map.lemma_view();
        }
        self.map.len() == 0
    }

    /// The key and value at a position in key order.
    pub fn entry_at(&self, i: usize) -> (r: (&String, &String))
        requires
            i < self.entries().len(),
        ensures
            r.0@ == self.entries()[i as int].0,
            r.1@ == self.entries()[i as int].1,
    {
        (self.map.key_at(i), self.map.value_at(i))
    }

    /// A copy.
    pub fn duplicate(&self) -> (r: Self)
        ensures
            r.entries() == self.entries(),
            r@ == self@,
            self.wf() ==> r.wf(),
    {
        Metadata { map: self.map.duplicate() }
    }
}

impl Dup for Metadata {
    open spec fn inv(&self) -> bool {
        self.wf()
    }

    fn dup(&self) -> (r: Self) {
        self.duplicate()
    }
}


/// The view of a string pair `(node, interface)`.
pub type EndpointV = (Seq<char>, Seq<char>);

/// The view of a link key: its two normalized endpoints.
pub type LinkKeyV = (EndpointV, EndpointV);

/// Strict order on endpoints: by node, then interface.
pub open spec fn ep_lt(x: EndpointV, y: EndpointV) -> bool {
    str_lt(x.0, y.0) || (x.0 == y.0 && str_lt(x.1, y.1))
}

/// Strict order on link keys: by first endpoint, then second.
pub open spec fn lk_lt(x: LinkKeyV, y: LinkKeyV) -> bool {
    ep_lt(x.0, y.0) || (x.0 == y.0 && ep_lt(x.1, y.1))
}

/// The text form `node/iface` of an endpoint.
pub open spec fn ep_text(e: EndpointV) -> Seq<char> {
    e.0 + "/"@ + e.1
}

/// Append a string slice to a string.
pub(crate) fn push_str(s: &mut String, t: &str)
    ensures
        final(s)@ == old(s)@ + t@,
{
    vstd::string::StringExecFns::append(s, t);
}

/// The concatenation of three string slices.
pub fn concat3(a: &str, b: &str, c: &str) -> (r: String)
    ensures
        r@ == a@ + b@ + c@,
{
    let mut s = owned(a);
    push_str(&mut s, b);
    push_str(&mut s, c);
    s
}

/// A named network interface owned by a node.
#[derive(Debug, Clone, PartialEq, Eq)]
pub struct Interface {
    pub name: String,
    pub metadata: Metadata,
}

/// The view of an interface.
pub struct InterfaceV {
    pub name: Seq<char>,
    pub metadata: Map<Seq<char>, Seq<char>>,
}

impl View for Interface {
    type V = InterfaceV;

    open spec fn view(&self) -> InterfaceV {
        InterfaceV { name: self.name@, metadata: self.metadata@ }
    }
}

impl Dup for Interface {
    open spec fn inv(&self) -> bool {
        self.metadata.wf()
    }

    fn dup(&self) -> (r: Self) {
        Interface { name: copy_string(&self.name), metadata: self.metadata.duplicate() }
    }
}

impl Interface {
    pub fn new(name: &str) -> (r: Result<Self, ModelError>)
        ensures
            r is Ok <==> valid_id(name@),
            r matches Ok(i) ==> i.name@ == name@ && i.metadata@.dom().len() == 0
                && i.metadata.wf() && i.metadata@ == Map::<Seq<char>, Seq<char>>::empty(),
            r matches Err(e) ==> is_invalid_id_error(e, name@),
    {
        validate_id(name)?;
        Ok(Interface { name: owned(name), metadata: Metadata::new() })
    }
}

/// An attachment point: `(node, interface)`.
#[derive(Debug, Clone, PartialEq, Eq, PartialOrd, Ord)]
pub struct Endpoint {
    pub node: String,
    pub iface: String,
}

impl View for Endpoint {
    type V = EndpointV;

    open spec fn view(&self) -> EndpointV {
        (self.node@, self.iface@)
    }
}

impl Dup for Endpoint {
    open spec fn inv(&self) -> bool {
        true
    }

    fn dup(&self) -> (r: Self) {
        let r = Endpoint { node: copy_string(&self.node), iface: copy_string(&self.iface) };
        proof {
            assert(r.inv());
        }
        r
    }
}

/// Three-way comparison of endpoints in their order.
pub fn ep_compare(x: &Endpoint, y: &Endpoint) -> (c: Compared)
    ensures
        c == Compared::Less <==> ep_lt(x@, y@),
        c == Compared::Equal <==> x@ == y@,
        c == Compared::Greater <==> ep_lt(y@, x@),
{
    match str_compare(x.node.as_str(), y.node.as_str()) {
        Compared::Equal => str_compare(x.iface.as_str(), y.iface.as_str()),
        c => c,
    }
}

/// Whether `x` sorts strictly before `y`.
pub fn ep_less(x: &Endpoint, y: &Endpoint) -> (r: bool)
    ensures
        r == ep_lt(x@, y@),
{
    match ep_compare(x, y) {
        Compared::Less => true,
        _ => false,
    }
}

impl SortKey for (Endpoint, Endpoint) {
    open spec fn key_lt(a: LinkKeyV, b: LinkKeyV) -> bool {
        lk_lt(a, b)
    }

    proof fn lemma_key_lt_irrefl(a: LinkKeyV) {
    }

    proof fn lemma_key_lt_trans(a: LinkKeyV, b: LinkKeyV, c: LinkKeyV) {
    }

    proof fn lemma_key_lt_total(a: LinkKeyV, b: LinkKeyV) {
    }

    fn key_compare(&self, other: &Self) -> (c: Compared) {
        match ep_compare(&self.0, &other.0) {
            Compared::Equal => ep_compare(&self.1, &other.1),
            c => c,
        }
    }
}

impl Dup for (Endpoint, Endpoint) {
    open spec fn inv(&self) -> bool {
        true
    }

    fn dup(&self) -> (r: Self) {
        (self.0.dup(), self.1.dup())
    }
}

/// Split a string around the ASCII byte at position `i`: the text before
/// it and the text after it.
pub(crate) fn split_around(s: &str, i: usize) -> (r: (&str, &str))
    requires
        i < sbytes(s@).len(),
        sbytes(s@)[i as int] < 128,
    ensures
        sbytes(r.0@) == sbytes(s@).take(i as int),
        sbytes(r.1@) == sbytes(s@).skip(i + 1),
{
    let b = s.as_bytes();
    proof {
        encode_utf8_valid_utf8(s@);
        is_char_boundary_iff_is_leading_byte(b@, i as int);
    }
    let (left, rest) = s.split_at(i);
    proof {
        valid_utf8_split(b@, i as int);
        assert(rest.spec_bytes()[0] == b@[i as int]);
        assert(rest.spec_bytes().len() >= 1);
        reveal_with_fuel(is_char_boundary, 2);
        assert(valid_first_scalar(rest.spec_bytes()));
        assert(length_of_first_scalar(rest.spec_bytes()) == 1);
    }
    let (_, right) = rest.split_at(1);
    proof {
        assert(left.spec_bytes() =~= b@.take(i as int));
        assert(right.spec_bytes() =~= b@.skip(i + 1));
    }
    (left, right)
}

/// Why an endpoint text is rejected when it has no `/`.
pub open spec fn endpoint_form_reason() -> Seq<char> {
    "endpoints must be node/interface (e.g. web/eth0)"@
}

/// Position of the first `/` at or after `i`, or -1.
pub open spec fn slash_from(b: Seq<u8>, i: nat) -> int
    decreases b.len() - i,
{
    if i >= b.len() {
        -1
    } else if b[i as int] == 47 {
        i as int
    } else {
        slash_from(b, i + 1)
    }
}

proof fn lemma_slash_from(b: Seq<u8>, i: nat)
    ensures
        slash_from(b, i) == -1 || (i <= slash_from(b, i) < b.len() && b[slash_from(b, i)] == 47
            && forall|j: int| i <= j < slash_from(b, i) ==> b[j] != 47),
        slash_from(b, i) == -1 ==> forall|j: int| i <= j < b.len() ==> b[j] != 47,
    decreases b.len() - i,
{
    if i < b.len() && b[i as int] != 47 {
        lemma_slash_from(b, i + 1);
    }
}

impl Endpoint {
    pub fn new(node: &str, iface: &str) -> (r: Result<Self, ModelError>)
        ensures
            r is Ok <==> valid_id(node@) && valid_id(iface@),
            r matches Ok(e) ==> e@ == (node@, iface@),
            !valid_id(node@) ==> (r matches Err(e) && is_invalid_id_error(e, node@)),
            valid_id(node@) && !valid_id(iface@) ==> (r matches Err(e) && is_invalid_id_error(
                e,
                iface@,
            )),
    {
        validate_id(node)?;
        validate_id(iface)?;
        Ok(Endpoint { node: owned(node), iface: owned(iface) })
    }

    /// Parse the text form `node/iface` (split at the first `/`).
    pub fn parse(s: &str) -> (r: Result<Self, ModelError>)
        ensures
            ({
                let b = sbytes(s@);
                let p = slash_from(b, 0);
                &&& p == -1 ==> (r matches Err(ModelError::InvalidId { id, reason }) && id@ == s@
                    && reason@ == endpoint_form_reason())
                &&& p != -1 ==> (r is Ok <==> valid_id_bytes(b.take(p)) && valid_id_bytes(
                    b.skip(p + 1),
                ))
                &&& p != -1 ==> (r matches Ok(e) ==> sbytes(e.node@) == b.take(p) && sbytes(
                    e.iface@,
                ) == b.skip(p + 1))
                &&& p != -1 && !valid_id_bytes(b.take(p)) ==> (r matches Err(
                    ModelError::InvalidId { id, reason },
                ) && sbytes(id@) == b.take(p) && reason@ == id_reason_bytes(b.take(p)))
                &&& p != -1 && valid_id_bytes(b.take(p)) && !valid_id_bytes(b.skip(p + 1)) ==> (
                r matches Err(ModelError::InvalidId { id, reason }) && sbytes(id@) == b.skip(p + 1)
                    && reason@ == id_reason_bytes(b.skip(p + 1)))
            }),
    {
        let b = s.as_bytes();
        let mut i: usize = 0;
        while i < b.len() && b[i] != 47
            invariant
                b@ == sbytes(s@),
                i <= b@.len(),
                slash_from(b@, 0) == slash_from(b@, i as nat),
            decreases b.len() - i,
        {
            i = i + 1;
        }
        proof {
            lemma_slash_from(b@, 0);
        }
        if i == b.len() {
            return Err(
                ModelError::InvalidId {
                    id: owned(s),
                    reason: "endpoints must be node/interface (e.g. web/eth0)",
                },
            );
        }
        proof {
            encode_utf8_valid_utf8(s@);
            is_char_boundary_iff_is_leading_byte(b@, i as int);
        }
        let (node, rest) = s.split_at(i);
        proof {
            valid_utf8_split(b@, i as int);
            assert(rest.spec_bytes()[0] == 47);
            assert(rest.spec_bytes().len() >= 1);
            reveal_with_fuel(is_char_boundary, 2);
            assert(valid_first_scalar(rest.spec_bytes()));
            assert(length_of_first_scalar(rest.spec_bytes()) == 1);
        }
        let (_, iface) = rest.split_at(1);
        proof {
            assert(node.spec_bytes() =~= b@.take(i as int));
            assert(iface.spec_bytes() =~= b@.skip(i + 1));
        }
        Endpoint::new(node, iface)
    }

    /// A copy.
    pub fn dup_endpoint(&self) -> (r: Self)
        ensures
            r@ == self@,
    {
        self.dup()
    }

    /// The pair `(node, iface)`.
    pub fn as_key(&self) -> (r: (String, String))
        ensures
            r.0@ == self.node@,
            r.1@ == self.iface@,
    {
        (copy_string(&self.node), copy_string(&self.iface))
    }

    /// The text form `node/iface`.
    pub fn text(&self) -> (r: String)
        ensures
            r@ == ep_text(self@),
    {
        concat3(self.node.as_str(), "/", self.iface.as_str())
    }
}

/// An undirected link between two interfaces, endpoints normalized so that
/// `a < b`.
#[derive(Debug, Clone, PartialEq, Eq)]
pub struct Link {
    pub a: Endpoint,
    pub b: Endpoint,
    pub metadata: Metadata,
}

/// The view of a link.
pub struct LinkV {
    pub a: EndpointV,
    pub b: EndpointV,
    pub metadata: Map<Seq<char>, Seq<char>>,
}

impl View for Link {
    type V = LinkV;

    open spec fn view(&self) -> LinkV {
        LinkV { a: self.a@, b: self.b@, metadata: self.metadata@ }
    }
}

impl Dup for Link {
    open spec fn inv(&self) -> bool {
        self.metadata.wf()
    }

    fn dup(&self) -> (r: Self) {
        Link { a: self.a.dup(), b: self.b.dup(), metadata: self.metadata.duplicate() }
    }
}

impl Link {
    /// A normalized link; rejects self-loops and same-node loops.
    pub fn new(a: Endpoint, b: Endpoint) -> (r: Result<Self, ModelError>)
        ensures
            a@ == b@ ==> (r matches Err(ModelError::SelfLoop { endpoint }) && endpoint@
                == ep_text(a@)),
            a@ != b@ && a@.0 == b@.0 ==> (r matches Err(ModelError::SameNodeLoop { node })
                && node@ == a@.0),
            a@.0 != b@.0 ==> (r matches Ok(l) && l.metadata.wf() && l.metadata@ == Map::<
                Seq<char>,
                Seq<char>,
            >::empty() && (if ep_lt(a@, b@) {
                l.a@ == a@ && l.b@ == b@
            } else {
                l.a@ == b@ && l.b@ == a@
            })),
    {
        match ep_compare(&a, &b) {
            Compared::Equal => {
                return Err(ModelError::SelfLoop { endpoint: a.text() });
            },
            _ => {},
        }
        if str_eq(a.node.as_str(), b.node.as_str()) {
            return Err(ModelError::SameNodeLoop { node: a.node });
        }
        if ep_less(&a, &b) {
            Ok(Link { a, b, metadata: Metadata::new() })
        } else {
            Ok(Link { a: b, b: a, metadata: Metadata::new() })
        }
    }

    /// The normalized endpoint key.
    pub fn key(&self) -> (r: (Endpoint, Endpoint))
        ensures
            r@ == (self.a@, self.b@),
    {
        (self.a.dup(), self.b.dup())
    }
}


/// A named network node with metadata and owned interfaces.
#[derive(Debug, Clone, PartialEq, Eq)]
pub struct Node {
    pub id: String,
    pub metadata: Metadata,
    interfaces: SortedMap<String, Interface>,
}

/// The view of a node.
pub struct NodeV {
    pub id: Seq<char>,
    pub metadata: Map<Seq<char>, Seq<char>>,
    pub interfaces: Map<Seq<char>, InterfaceV>,
}

impl View for Node {
    type V = NodeV;

    closed spec fn view(&self) -> NodeV {
        NodeV { id: self.id@, metadata: self.metadata@, interfaces: self.interfaces.map() }
    }
}

impl NodeV {
    /// Interfaces are keyed by their names, which are valid identifiers.
    pub open spec fn valid(self) -> bool {
        &&& self.interfaces.dom().finite()
        &&& forall|j: Seq<char>| #[trigger]
            self.interfaces.dom().contains(j) ==> self.interfaces[j].name == j && valid_id(j)
    }
}

impl Dup for Node {
    open spec fn inv(&self) -> bool {
        self.wf()
    }

    fn dup(&self) -> (r: Self) {
        let r = Node {
            id: copy_string(&self.id),
            metadata: self.metadata.duplicate(),
            interfaces: self.interfaces.duplicate(),
        };
        proof {
            if self.wf() {
                self.interfaces.lemma_view();
                r.interfaces.lemma_view();
            }
        }
        r
    }
}

impl Node {
    /// The interface names in ascending order.
    pub closed spec fn interface_names(&self) -> Seq<Seq<char>> {
        self.interfaces.keys()
    }

    pub closed spec fn wf(&self) -> bool {
        &&& self.metadata.wf()
        &&& self.interfaces.wf()
        &&& self.interfaces.values_inv()
        &&& self@.valid()
    }

    /// The interface names of a well-formed node are its interface map's
    /// keys, strictly ascending.
    pub proof fn lemma_interface_names(&self)
        requires
            self.wf(),
        ensures
            self.interface_names().len() == self@.interfaces.dom().len(),
            forall|i: int|
                0 <= i < self.interface_names().len() ==> self@.interfaces.dom().contains(
                    #[trigger] self.interface_names()[i],
                ),
            forall|k: Seq<char>|
                #![trigger self@.interfaces.dom().contains(k)]
                self@.interfaces.dom().contains(k) ==> exists|i: int|
                    0 <= i < self.interface_names().len() && self.interface_names()[i] == k,
            forall|i: int, j: int|
                0 <= i < j < self.interface_names().len() ==> str_lt(
                    #[trigger] self.interface_names()[i],
                    #[trigger] self.interface_names()[j],
                ),
    {
        self.interfaces.lemma_view();
        assert forall|i: int| 0 <= i < self.interface_names().len() implies self@.interfaces.dom().contains(
            #[trigger] self.interface_names()[i],
        ) by {
            assert(self.interface_names()[i] == self.interfaces.kv()[i].0);
        }
        assert forall|k: Seq<char>| #[trigger] self@.interfaces.dom().contains(k) implies exists|i: int|
            0 <= i < self.interface_names().len() && self.interface_names()[i] == k by {
            let i = choose|i: int| 0 <= i < self.interfaces.kv().len() && self.interfaces.kv()[i].0 == k;
            assert(self.interface_names()[i] == k);
        }
        assert forall|i: int, j: int| 0 <= i < j < self.interface_names().len() implies str_lt(
            #[trigger] self.interface_names()[i],
            #[trigger] self.interface_names()[j],
        ) by {
            assert(self.interface_names()[i] == self.interfaces.kv()[i].0);
            assert(self.interface_names()[j] == self.interfaces.kv()[j].0);
        }
    }

    pub(crate) fn fresh(id: String, metadata: Metadata) -> (r: Self)
        requires
            metadata.wf(),
        ensures
            r.wf(),
            r@ == (NodeV {
                id: id@,
                metadata: metadata@,
                interfaces: Map::<Seq<char>, InterfaceV>::empty(),
            }),
    {
        let r = Node { id, metadata, interfaces: SortedMap::new() };
        proof {
            r.interfaces.lemma_view();
            assert(r@.interfaces =~= Map::<Seq<char>, InterfaceV>::empty());
        }
        r
    }

    pub fn interface(&self, name: &str) -> (r: Option<&Interface>)
        requires
            self.wf(),
        ensures
            r is Some <==> self@.interfaces.dom().contains(name@),
            r matches Some(i) ==> i@ == self@.interfaces[name@] && i.metadata.wf(),
    {
        let k = owned(name);
        self.interfaces.get(&k)
    }

    pub fn interface_count(&self) -> (n: usize)
        requires
            self.wf(),
        ensures
            n == self@.interfaces.dom().len(),
    {
        proof {
            self.interfaces.lemma_view();
        }
        self.interfaces.len()
    }

    /// The interfaces in name order.
    pub fn iter_interfaces(&self) -> (r: Vec<&Interface>)
        requires
            self.wf(),
        ensures
            r@.len() == self.interface_names().len(),
            forall|i: int| 0 <= i < r@.len() ==> (#[trigger] r@[i])@ == self@.interfaces[self.interface_names()[i]]
                && r@[i].name@ == self.interface_names()[i],
    {
        proof {
            self.interfaces.lemma_view();
        }
        let n = self.interfaces.len();
        let mut out: Vec<&Interface> = Vec::new();
        let mut i: usize = 0;
        while i < n
            invariant
                self.wf(),
                n == self.interface_names().len(),
                i <= n,
                out@.len() == i,
                forall|j: int| 0 <= j < i ==> (#[trigger] out@[j])@ == self@.interfaces[self.interface_names()[j]]
                    && out@[j].name@ == self.interface_names()[j],
            decreases n - i,
        {
            out.push(self.interface_at(i));
            i = i + 1;
        }
        out
    }

    /// The interface at a position in name order.
    pub fn interface_at(&self, i: usize) -> (r: &Interface)
        requires
            self.wf(),
            i < self.interface_names().len(),
        ensures
            r.name@ == self.interface_names()[i as int],
            r@ == self@.interfaces[self.interface_names()[i as int]],
            r.metadata.wf(),
    {
        proof {
            self.interfaces.lemma_view();
        }
        self.interfaces.value_at(i)
    }
}

/// The view of a network: nodes by id, links by normalized endpoint key.
pub struct NetworkV {
    pub nodes: Map<Seq<char>, NodeV>,
    pub links: Map<LinkKeyV, LinkV>,
}

impl NetworkV {
    /// The endpoint names an existing interface of an existing node.
    pub open spec fn has_endpoint(self, e: EndpointV) -> bool {
        self.nodes.dom().contains(e.0) && self.nodes[e.0].interfaces.dom().contains(e.1)
    }

    /// Structural validity: consistent keys, valid identifiers, normalized
    /// links between existing interfaces.
    pub open spec fn valid(self) -> bool {
        &&& self.nodes.dom().finite()
        &&& self.links.dom().finite()
        &&& forall|k: Seq<char>| #[trigger]
            self.nodes.dom().contains(k) ==> self.nodes[k].id == k && valid_id(k)
                && self.nodes[k].valid()
        &&& forall|lk: LinkKeyV| #[trigger]
            self.links.dom().contains(lk) ==> self.links[lk].a == lk.0 && self.links[lk].b == lk.1
                && ep_lt(lk.0, lk.1) && lk.0.0 != lk.1.0 && self.has_endpoint(lk.0) && self.has_endpoint(lk.1)
    }

    /// Every existing interface, as a (node, interface) pair.
    pub open spec fn endpoints(self) -> Set<EndpointV> {
        Set::new(|e: EndpointV| self.has_endpoint(e))
    }

    /// Some link has the node at one of its ends.
    pub open spec fn node_linked(self, id: Seq<char>) -> bool {
        exists|lk: LinkKeyV| #[trigger] self.links.dom().contains(lk) && (lk.0.0 == id || lk.1.0 == id)
    }

    /// Some link has the interface at one of its ends.
    pub open spec fn iface_linked(self, e: EndpointV) -> bool {
        exists|lk: LinkKeyV| #[trigger] self.links.dom().contains(lk) && (lk.0 == e || lk.1 == e)
    }
}

/// The normalized key of a link between two endpoints.
pub open spec fn norm_key(a: EndpointV, b: EndpointV) -> LinkKeyV {
    if ep_lt(b, a) {
        (b, a)
    } else {
        (a, b)
    }
}

/// A link's key does not depend on the order its ends are given in, and
/// puts the smaller end first.
pub proof fn law_link_key_order(a: EndpointV, b: EndpointV)
    ensures
        norm_key(a, b) == norm_key(b, a),
        a != b ==> ep_lt(norm_key(a, b).0, norm_key(a, b).1),
        (norm_key(a, b) == (a, b)) || (norm_key(a, b) == (b, a)),
{
    crate::text::lemma_str_lt_total(a.0, b.0);
    crate::text::lemma_str_lt_total(a.1, b.1);
    if str_lt(a.0, b.0) && str_lt(b.0, a.0) {
        crate::text::lemma_str_lt_trans(a.0, b.0, a.0);
        crate::text::lemma_str_lt_irrefl(a.0);
    }
    if str_lt(a.1, b.1) && str_lt(b.1, a.1) {
        crate::text::lemma_str_lt_trans(a.1, b.1, a.1);
        crate::text::lemma_str_lt_irrefl(a.1);
    }
    if a.0 == b.0 {
        crate::text::lemma_str_lt_irrefl(a.0);
    }
    if a.0 == b.0 && a.1 == b.1 {
        assert(a == b);
    }
}

/// The error that looking up a missing endpoint gives.
pub open spec fn endpoint_error(n: NetworkV, e: EndpointV, err: ModelError) -> bool {
    if !n.nodes.dom().contains(e.0) {
        err matches ModelError::NodeMissing { id } && id@ == e.0
    } else {
        err matches ModelError::InterfaceMissing { node, name } && node@ == e.0 && name@ == e.1
    }
}

/// The text pairs of a sequence of link keys.
pub open spec fn key_texts(s: Seq<LinkKeyV>) -> Seq<(Seq<char>, Seq<char>)> {
    s.map_values(|k: LinkKeyV| (ep_text(k.0), ep_text(k.1)))
}

/// The views of a vector of string pairs.
pub open spec fn pair_views(v: Seq<(String, String)>) -> Seq<(Seq<char>, Seq<char>)> {
    v.map_values(|p: (String, String)| (p.0@, p.1@))
}

/// A deterministic network: nodes (with interfaces) and links, totally
/// ordered everywhere.
#[derive(Debug, Clone, PartialEq, Eq)]
pub struct Network {
    nodes: SortedMap<String, Node>,
    links: SortedMap<(Endpoint, Endpoint), Link>,
}

impl View for Network {
    type V = NetworkV;

    closed spec fn view(&self) -> NetworkV {
        NetworkV { nodes: self.nodes.map(), links: self.links.map() }
    }
}

impl Network {
    /// Node ids in ascending order.
    pub closed spec fn node_ids(&self) -> Seq<Seq<char>> {
        self.nodes.keys()
    }

    /// Link keys in ascending order.
    pub closed spec fn link_keys(&self) -> Seq<LinkKeyV> {
        self.links.keys()
    }

    pub closed spec fn wf(&self) -> bool {
        &&& self.nodes.wf()
        &&& self.links.wf()
        &&& self.nodes.values_inv()
        &&& self.links.values_inv()
        &&& self@.valid()
    }

    /// The ordered ids and keys of a well-formed network enumerate its maps
    /// in ascending order.
    pub proof fn lemma_orders(&self)
        requires
            self.wf(),
        ensures
            self.node_ids().len() == self@.nodes.dom().len(),
            self.link_keys().len() == self@.links.dom().len(),
            forall|i: int|
                0 <= i < self.node_ids().len() ==> self@.nodes.dom().contains(
                    #[trigger] self.node_ids()[i],
                ),
            forall|k: Seq<char>|
                #![trigger self@.nodes.dom().contains(k)]
                self@.nodes.dom().contains(k) ==> exists|i: int|
                    0 <= i < self.node_ids().len() && self.node_ids()[i] == k,
            forall|i: int, j: int|
                0 <= i < j < self.node_ids().len() ==> str_lt(
                    #[trigger] self.node_ids()[i],
                    #[trigger] self.node_ids()[j],
                ),
            forall|i: int|
                0 <= i < self.link_keys().len() ==> self@.links.dom().contains(
                    #[trigger] self.link_keys()[i],
                ),
            forall|k: LinkKeyV|
                #![trigger self@.links.dom().contains(k)]
                self@.links.dom().contains(k) ==> exists|i: int|
                    0 <= i < self.link_keys().len() && self.link_keys()[i] == k,
            forall|i: int, j: int|
                0 <= i < j < self.link_keys().len() ==> lk_lt(
                    #[trigger] self.link_keys()[i],
                    #[trigger] self.link_keys()[j],
                ),
    {
        self.nodes.lemma_view();
        self.links.lemma_view();
        assert forall|i: int| 0 <= i < self.node_ids().len() implies self@.nodes.dom().contains(
            #[trigger] self.node_ids()[i],
        ) by {
            assert(self.node_ids()[i] == self.nodes.kv()[i].0);
        }
        assert forall|k: Seq<char>| #[trigger] self@.nodes.dom().contains(k) implies exists|i: int|
            0 <= i < self.node_ids().len() && self.node_ids()[i] == k by {
            let i = choose|i: int| 0 <= i < self.nodes.kv().len() && self.nodes.kv()[i].0 == k;
            assert(self.node_ids()[i] == k);
        }
        assert forall|i: int, j: int| 0 <= i < j < self.node_ids().len() implies str_lt(
            #[trigger] self.node_ids()[i],
            #[trigger] self.node_ids()[j],
        ) by {
            assert(self.node_ids()[i] == self.nodes.kv()[i].0);
            assert(self.node_ids()[j] == self.nodes.kv()[j].0);
        }
        assert forall|i: int| 0 <= i < self.link_keys().len() implies self@.links.dom().contains(
            #[trigger] self.link_keys()[i],
        ) by {
            assert(self.link_keys()[i] == self.links.kv()[i].0);
        }
        assert forall|k: LinkKeyV| #[trigger] self@.links.dom().contains(k) implies exists|i: int|
            0 <= i < self.link_keys().len() && self.link_keys()[i] == k by {
            let i = choose|i: int| 0 <= i < self.links.kv().len() && self.links.kv()[i].0 == k;
            assert(self.link_keys()[i] == k);
        }
        assert forall|i: int, j: int| 0 <= i < j < self.link_keys().len() implies lk_lt(
            #[trigger] self.link_keys()[i],
            #[trigger] self.link_keys()[j],
        ) by {
            assert(self.link_keys()[i] == self.links.kv()[i].0);
            assert(self.link_keys()[j] == self.links.kv()[j].0);
        }
    }

    pub fn empty() -> (r: Self)
        ensures
            r.wf(),
            r@.nodes == Map::<Seq<char>, NodeV>::empty(),
            r@.links == Map::<LinkKeyV, LinkV>::empty(),
    {
        let r = Network { nodes: SortedMap::new(), links: SortedMap::new() };
        proof {
            r.nodes.lemma_view();
            r.links.lemma_view();
        }
        r
    }

    pub fn node(&self, id: &str) -> (r: Option<&Node>)
        requires
            self.wf(),
        ensures
            r is Some <==> self@.nodes.dom().contains(id@),
            r matches Some(n) ==> n@ == self@.nodes[id@] && n.wf(),
    {
        let k = owned(id);
        self.nodes.get(&k)
    }

    pub fn node_count(&self) -> (n: usize)
        requires
            self.wf(),
        ensures
            n == self@.nodes.dom().len(),
    {
        proof {
            self.nodes.lemma_view();
        }
        self.nodes.len()
    }

    pub fn link_count(&self) -> (n: usize)
        requires
            self.wf(),
        ensures
            n == self@.links.dom().len(),
    {
        proof {
            self.links.lemma_view();
        }
        self.links.len()
    }

    /// The node at a position in id order.
    pub fn node_at(&self, i: usize) -> (r: &Node)
        requires
            self.wf(),
            i < self.node_ids().len(),
        ensures
            r@.id == self.node_ids()[i as int],
            r@ == self@.nodes[self.node_ids()[i as int]],
            r.wf(),
    {
        proof {
            self.nodes.lemma_view();
        }
        let r = self.nodes.value_at(i);
        proof {
            assert(self.node_ids()[i as int] == self.nodes.kv()[i as int].0);
        }
        r
    }

    /// The nodes in id order.
    pub fn iter_nodes(&self) -> (r: Vec<&Node>)
        requires
            self.wf(),
        ensures
            r@.len() == self.node_ids().len(),
            forall|i: int| 0 <= i < r@.len() ==> (#[trigger] r@[i])@ == self@.nodes[self.node_ids()[i]]
                && r@[i].wf(),
    {
        proof {
            self.lemma_orders();
        }
        let n = self.node_count();
        let mut out: Vec<&Node> = Vec::new();
        let mut i: usize = 0;
        while i < n
            invariant
                self.wf(),
                n == self.node_ids().len(),
                i <= n,
                out@.len() == i,
                forall|j: int| 0 <= j < i ==> (#[trigger] out@[j])@ == self@.nodes[self.node_ids()[j]]
                    && out@[j].wf(),
            decreases n - i,
        {
            out.push(self.node_at(i));
            i = i + 1;
        }
        out
    }

    /// The links in key order.
    pub fn iter_links(&self) -> (r: Vec<&Link>)
        requires
            self.wf(),
        ensures
            r@.len() == self.link_keys().len(),
            forall|i: int| 0 <= i < r@.len() ==> (#[trigger] r@[i])@ == self@.links[self.link_keys()[i]],
    {
        proof {
            self.lemma_orders();
        }
        let n = self.link_count();
        let mut out: Vec<&Link> = Vec::new();
        let mut i: usize = 0;
        while i < n
            invariant
                self.wf(),
                n == self.link_keys().len(),
                i <= n,
                out@.len() == i,
                forall|j: int| 0 <= j < i ==> (#[trigger] out@[j])@ == self@.links[self.link_keys()[j]],
            decreases n - i,
        {
            out.push(self.link_at(i));
            i = i + 1;
        }
        out
    }

    /// The link at a position in key order.
    pub fn link_at(&self, i: usize) -> (r: &Link)
        requires
            self.wf(),
            i < self.link_keys().len(),
        ensures
            (r.a@, r.b@) == self.link_keys()[i as int],
            r@ == self@.links[self.link_keys()[i as int]],
            r.metadata.wf(),
    {
        proof {
            self.links.lemma_view();
        }
        let r = self.links.value_at(i);
        proof {
            assert(self.link_keys()[i as int] == self.links.kv()[i as int].0);
        }
        r
    }

    /// Look up a link regardless of endpoint argument order.
    pub fn link(&self, a: &Endpoint, b: &Endpoint) -> (r: Option<&Link>)
        requires
            self.wf(),
        ensures
            r is Some <==> self@.links.dom().contains(norm_key(a@, b@)),
            r matches Some(l) ==> l@ == self@.links[norm_key(a@, b@)] && l.metadata.wf(),
    {
        let key = if ep_less(b, a) {
            (b.dup(), a.dup())
        } else {
            (a.dup(), b.dup())
        };
        self.links.get(&key)
    }

    fn ensure_endpoint(&self, e: &Endpoint) -> (r: Result<(), ModelError>)
        requires
            self.wf(),
        ensures
            r is Ok <==> self@.has_endpoint(e@),
            r matches Err(err) ==> endpoint_error(self@, e@, err),
    {
        match self.node(e.node.as_str()) {
            None => Err(ModelError::NodeMissing { id: copy_string(&e.node) }),
            Some(n) => {
                if n.interface(e.iface.as_str()).is_some() {
                    Ok(())
                } else {
                    Err(
                        ModelError::InterfaceMissing {
                            node: copy_string(&e.node),
                            name: copy_string(&e.iface),
                        },
                    )
                }
            },
        }
    }

    /// Add a node. Fails if the identifier is invalid or already present.
    pub fn add_node(&mut self, id: &str, metadata: Metadata) -> (r: Result<(), ModelError>)
        requires
            old(self).wf(),
            metadata.wf(),
        ensures
            final(self).wf(),
            r is Ok <==> valid_id(id@) && !old(self)@.nodes.dom().contains(id@),
            r is Ok ==> final(self)@ == (NetworkV {
                nodes: old(self)@.nodes.insert(
                    id@,
                    NodeV {
                        id: id@,
                        metadata: metadata@,
                        interfaces: Map::<Seq<char>, InterfaceV>::empty(),
                    },
                ),
                links: old(self)@.links,
            }),
            r is Err ==> final(self)@ == old(self)@,
            !valid_id(id@) ==> (r matches Err(e) && is_invalid_id_error(e, id@)),
            valid_id(id@) && old(self)@.nodes.dom().contains(id@) ==> (r matches Err(
                ModelError::NodeExists { id: x },
            ) && x@ == id@),
    {
        validate_id(id)?;
        let key = owned(id);
        if self.nodes.contains_key(&key) {
            return Err(ModelError::NodeExists { id: key });
        }
        let node = Node::fresh(owned(id), metadata);
        self.nodes.insert(key, node);
        proof {
            let o = old(self)@;
            let n = self@;
            assert(n.valid()) by {
                assert forall|lk: LinkKeyV| #[trigger] n.links.dom().contains(lk) implies n.has_endpoint(lk.0)
                    && n.has_endpoint(lk.1) by {
                    assert(o.links.dom().contains(lk));
                    assert(o.has_endpoint(lk.0));
                    assert(o.has_endpoint(lk.1));
                }
                assert forall|k: Seq<char>| #[trigger] n.nodes.dom().contains(k) implies n.nodes[k].id == k
                    && valid_id(k) && n.nodes[k].valid() by {
                    if k != id@ {
                        assert(o.nodes.dom().contains(k));
                    }
                }
            }
        }
        Ok(())
    }
}


/// Link keys with the node at one end.
pub open spec fn touches_node(id: Seq<char>) -> spec_fn(LinkKeyV) -> bool {
    |k: LinkKeyV| k.0.0 == id || k.1.0 == id
}

/// Link keys with the endpoint at one end.
pub open spec fn touches_endpoint(e: EndpointV) -> spec_fn(LinkKeyV) -> bool {
    |k: LinkKeyV| k.0 == e || k.1 == e
}

/// The network with an interface added to a node.
pub open spec fn with_interface(n: NetworkV, node: Seq<char>, name: Seq<char>) -> NetworkV {
    NetworkV {
        nodes: n.nodes.insert(
            node,
            NodeV {
                interfaces: n.nodes[node].interfaces.insert(
                    name,
                    InterfaceV { name, metadata: Map::empty() },
                ),
                ..n.nodes[node]
            },
        ),
        links: n.links,
    }
}

/// The network with an interface removed from a node.
pub open spec fn without_interface(n: NetworkV, node: Seq<char>, name: Seq<char>) -> NetworkV {
    NetworkV {
        nodes: n.nodes.insert(
            node,
            NodeV { interfaces: n.nodes[node].interfaces.remove(name), ..n.nodes[node] },
        ),
        links: n.links,
    }
}

/// Adding an interface to an existing node adds exactly that
/// (node, interface) pair to the network's interfaces.
pub proof fn law_add_interface_endpoints(n: NetworkV, node: Seq<char>, name: Seq<char>)
    requires
        n.nodes.dom().contains(node),
    ensures
        with_interface(n, node, name).endpoints() == n.endpoints().insert((node, name)),
{
    assert(with_interface(n, node, name).endpoints() =~= n.endpoints().insert((node, name)));
}

/// Removing an interface of an existing node takes exactly that
/// (node, interface) pair out of the network's interfaces.
pub proof fn law_remove_interface_endpoints(n: NetworkV, node: Seq<char>, name: Seq<char>)
    requires
        n.nodes.dom().contains(node),
    ensures
        without_interface(n, node, name).endpoints() == n.endpoints().remove((node, name)),
{
    assert(without_interface(n, node, name).endpoints() =~= n.endpoints().remove((node, name)));
}

/// The link a normalized key stands for, with empty metadata.
pub open spec fn bare_link(k: LinkKeyV) -> LinkV {
    LinkV { a: k.0, b: k.1, metadata: Map::empty() }
}

/// Sum of interface counts over a sequence of node entries.
pub open spec fn iface_sum(s: Seq<(Seq<char>, NodeV)>) -> nat
    decreases s.len(),
{
    if s.len() == 0 {
        0
    } else {
        iface_sum(s.drop_last()) + s.last().1.interfaces.dom().len()
    }
}

/// The (node, interface) pairs held by a list of nodes.
pub open spec fn endpoints_in(s: Seq<(Seq<char>, NodeV)>) -> Set<EndpointV> {
    Set::new(
        |e: EndpointV|
            exists|j: int| 0 <= j < s.len() && s[j].0 == e.0 && (#[trigger] s[j]).1.interfaces.dom().contains(e.1),
    )
}

/// Over nodes with distinct keys, the interface counts add up to the
/// number of (node, interface) pairs.
proof fn lemma_iface_sum_endpoints(s: Seq<(Seq<char>, NodeV)>)
    requires
        forall|i: int, j: int| 0 <= i < j < s.len() ==> s[i].0 != s[j].0,
        forall|j: int| 0 <= j < s.len() ==> (#[trigger] s[j]).1.interfaces.dom().finite(),
    ensures
        endpoints_in(s).finite(),
        endpoints_in(s).len() == iface_sum(s),
    decreases s.len(),
{
    if s.len() == 0 {
        assert(endpoints_in(s) =~= Set::<EndpointV>::empty());
    } else {
        let t = s.drop_last();
        let x = s.last();
        assert forall|j: int| 0 <= j < t.len() implies (#[trigger] t[j]).1.interfaces.dom().finite() by {
            assert(t[j] == s[j]);
        }
        lemma_iface_sum_endpoints(t);
        let f = |i: Seq<char>| (x.0, i);
        let b = x.1.interfaces.dom().map(f);
        assert(s[s.len() - 1] == x);
        vstd::set_lib::lemma_map_size(x.1.interfaces.dom(), b, f);
        assert(endpoints_in(s) =~= endpoints_in(t) + b) by {
            assert forall|e: EndpointV| #[trigger] endpoints_in(s).contains(e) implies (endpoints_in(t)
                + b).contains(e) by {
                let j = choose|j: int| 0 <= j < s.len() && s[j].0 == e.0 && (#[trigger] s[j]).1.interfaces.dom().contains(e.1);
                if j < t.len() {
                    assert(t[j] == s[j]);
                } else {
                    assert(x.1.interfaces.dom().contains(e.1));
                    assert(f(e.1) == e);
                }
            }
            assert forall|e: EndpointV| #[trigger] (endpoints_in(t) + b).contains(e) implies endpoints_in(
                s,
            ).contains(e) by {
                if endpoints_in(t).contains(e) {
                    let j = choose|j: int| 0 <= j < t.len() && t[j].0 == e.0 && (#[trigger] t[j]).1.interfaces.dom().contains(e.1);
                    assert(s[j] == t[j]);
                } else {
                    let i = choose|i: Seq<char>| x.1.interfaces.dom().contains(i) && f(i) == e;
                    assert(s[s.len() - 1] == x);
                }
            }
        }
        assert(endpoints_in(t).disjoint(b)) by {
            assert forall|e: EndpointV| endpoints_in(t).contains(e) implies !b.contains(e) by {
                let j = choose|j: int| 0 <= j < t.len() && t[j].0 == e.0 && (#[trigger] t[j]).1.interfaces.dom().contains(e.1);
                assert(t[j] == s[j]);
            }
        }
        vstd::set_lib::lemma_set_disjoint_lens(endpoints_in(t), b);
    }
}

proof fn lemma_iface_sum_prefix(s: Seq<(Seq<char>, NodeV)>, i: int)
    requires
        0 <= i <= s.len(),
    ensures
        iface_sum(s.take(i)) <= iface_sum(s),
    decreases s.len(),
{
    if i < s.len() {
        assert(s.drop_last().take(i) =~= s.take(i));
        lemma_iface_sum_prefix(s.drop_last(), i);
    } else {
        assert(s.take(i) =~= s);
    }
}

/// Whether a filter over link keys keeps anything.
proof fn lemma_filter_empty(s: Seq<LinkKeyV>, p: spec_fn(LinkKeyV) -> bool)
    ensures
        s.filter(p).len() == 0 <==> forall|i: int| 0 <= i < s.len() ==> !p(#[trigger] s[i]),
{
    broadcast use vstd::seq_lib::group_filter_ensures;

    if s.filter(p).len() > 0 {
        assert(s.filter(p).contains(s.filter(p)[0]));
        assert(p(s.filter(p)[0]));
        s.lemma_filter_contains_rev(p, s.filter(p)[0]);
        assert(s.contains(s.filter(p)[0]));
    }
    if exists|i: int| 0 <= i < s.len() && p(s[i]) {
        let i = choose|i: int| 0 <= i < s.len() && p(s[i]);
        s.lemma_filter_contains(p, i);
    }
}

impl Network {
    /// Text pairs of the links matching a predicate, in key order.
    fn links_matching(&self, node: &str, iface: Option<&str>) -> (r: Vec<(String, String)>)
        requires
            self.wf(),
        ensures
            pair_views(r@) == key_texts(
                self.link_keys().filter(
                    match iface {
                        None => touches_node(node@),
                        Some(i) => touches_endpoint((node@, i@)),
                    },
                ),
            ),
    {
        let ghost p = match iface {
            None => touches_node(node@),
            Some(i) => touches_endpoint((node@, i@)),
        };
        let mut out: Vec<(String, String)> = Vec::new();
        let n = self.links.len();
        let mut i: usize = 0;
        proof {
            self.links.lemma_view();
            assert(self.link_keys().take(0) =~= Seq::<LinkKeyV>::empty());
            reveal(Seq::filter);
            assert(pair_views(out@) =~= key_texts(self.link_keys().take(0).filter(p)));
        }
        while i < n
            invariant
                self.wf(),
                n == self.link_keys().len(),
                i <= n,
                p == (match iface {
                    None => touches_node(node@),
                    Some(i) => touches_endpoint((node@, i@)),
                }),
                pair_views(out@) == key_texts(self.link_keys().take(i as int).filter(p)),
            decreases n - i,
        {
            proof {
                self.links.lemma_view();
            }
            let l = self.link_at(i);
            let hit = match iface {
                None => str_eq(l.a.node.as_str(), node) || str_eq(l.b.node.as_str(), node),
                Some(f) => (str_eq(l.a.node.as_str(), node) && str_eq(l.a.iface.as_str(), f)) || (
                str_eq(l.b.node.as_str(), node) && str_eq(l.b.iface.as_str(), f)),
            };
            let ghost k = self.link_keys()[i as int];
            proof {
                assert(self.link_keys().take(i + 1) =~= self.link_keys().take(i as int).push(k));
                self.link_keys().take(i as int).lemma_filter_push(k, p);
                assert(hit == p(k));
            }
            if hit {
                let ta = l.a.text();
                let tb = l.b.text();
                let ghost before = out@;
                let ghost fi = self.link_keys().take(i as int).filter(p);
                out.push((ta, tb));
                proof {
                    assert(pair_views(out@) =~= pair_views(before).push((ta@, tb@)));
                    assert(key_texts(fi.push(k)) =~= key_texts(fi).push((ep_text(k.0), ep_text(k.1))));
                    assert(pair_views(out@) =~= key_texts(self.link_keys().take(i + 1).filter(p)));
                }
            }
            i = i + 1;
        }
        proof {
            assert(self.link_keys().take(n as int) =~= self.link_keys());
        }
        out
    }
}


impl Network {
    /// Remove a node. Fails while any link references its interfaces.
    pub fn remove_node(&mut self, id: &str) -> (r: Result<(), ModelError>)
        requires
            old(self).wf(),
        ensures
            final(self).wf(),
            r is Ok <==> old(self)@.nodes.dom().contains(id@) && !old(self)@.node_linked(id@),
            r is Ok ==> final(self)@ == (NetworkV {
                nodes: old(self)@.nodes.remove(id@),
                links: old(self)@.links,
            }),
            r is Err ==> final(self)@ == old(self)@,
            !old(self)@.nodes.dom().contains(id@) ==> (r matches Err(ModelError::NodeMissing { id: x })
                && x@ == id@),
            old(self)@.nodes.dom().contains(id@) && old(self)@.node_linked(id@) ==> (r matches Err(
                ModelError::NodeInUse { id: x, links },
            ) && x@ == id@ && pair_views(links@) == key_texts(
                old(self).link_keys().filter(touches_node(id@)),
            )),
    {
        let key = owned(id);
        if !self.nodes.contains_key(&key) {
            return Err(ModelError::NodeMissing { id: key });
        }
        let attached = self.links_matching(id, None);
        proof {
            self.lemma_orders();
            lemma_filter_empty(self.link_keys(), touches_node(id@));
            if self@.node_linked(id@) {
                let lk = choose|lk: LinkKeyV| #[trigger] self@.links.dom().contains(lk) && (lk.0.0
                    == id@ || lk.1.0 == id@);
                let j = choose|j: int| 0 <= j < self.link_keys().len() && self.link_keys()[j] == lk;
                assert(touches_node(id@)(self.link_keys()[j]));
            }
            if self.link_keys().filter(touches_node(id@)).len() > 0 {
                let j = choose|j: int| 0 <= j < self.link_keys().len() && touches_node(id@)(
                    #[trigger] self.link_keys()[j],
                );
                assert(self@.links.dom().contains(self.link_keys()[j]));
            }
            assert(pair_views(attached@).len() == attached@.len());
            assert(attached@.len() > 0 <==> self@.node_linked(id@));
        }
        if attached.len() > 0 {
            return Err(ModelError::NodeInUse { id: key, links: attached });
        }
        self.nodes.remove(&key);
        proof {
            let o = old(self)@;
            let n = self@;
            assert(n.valid()) by {
                assert forall|lk: LinkKeyV| #[trigger] n.links.dom().contains(lk) implies n.has_endpoint(lk.0)
                    && n.has_endpoint(lk.1) by {
                    assert(o.links.dom().contains(lk));
                    assert(!(lk.0.0 == id@ || lk.1.0 == id@));
                }
                assert forall|k: Seq<char>| #[trigger] n.nodes.dom().contains(k) implies n.nodes[k].id == k
                    && valid_id(k) && n.nodes[k].valid() by {
                    assert(o.nodes.dom().contains(k));
                }
            }
        }
        Ok(())
    }

    /// Add an interface to a node.
    pub fn add_interface(&mut self, node: &str, name: &str) -> (r: Result<(), ModelError>)
        requires
            old(self).wf(),
        ensures
            final(self).wf(),
            r is Ok <==> valid_id(name@) && old(self)@.nodes.dom().contains(node@) && !old(
                self,
            )@.nodes[node@].interfaces.dom().contains(name@),
            r is Ok ==> final(self)@ == with_interface(old(self)@, node@, name@),
            r is Err ==> final(self)@ == old(self)@,
            !valid_id(name@) ==> (r matches Err(e) && is_invalid_id_error(e, name@)),
            valid_id(name@) && !old(self)@.nodes.dom().contains(node@) ==> (r matches Err(
                ModelError::NodeMissing { id: x },
            ) && x@ == node@),
            valid_id(name@) && old(self)@.nodes.dom().contains(node@) && old(
                self,
            )@.nodes[node@].interfaces.dom().contains(name@) ==> (r matches Err(
                ModelError::InterfaceExists { node: x, name: y },
            ) && x@ == node@ && y@ == name@),
    {
        let ifc = Interface::new(name)?;
        let key = owned(node);
        let n = match self.nodes.get(&key) {
            None => {
                return Err(ModelError::NodeMissing { id: key });
            },
            Some(n) => n,
        };
        if n.interfaces.contains_key(&ifc.name) {
            return Err(ModelError::InterfaceExists { node: key, name: ifc.name });
        }
        let mut n2 = n.dup();
        let iname = copy_string(&ifc.name);
        n2.interfaces.insert(iname, ifc);
        proof {
            n2.interfaces.lemma_view();
            assert(n2@.valid()) by {
                assert forall|j: Seq<char>| #[trigger] n2@.interfaces.dom().contains(j) implies n2@.interfaces[j].name
                    == j && valid_id(j) by {
                    if j != name@ {
                        assert(n@.interfaces.dom().contains(j));
                    }
                }
            }
        }
        self.nodes.insert(key, n2);
        proof {
            let o = old(self)@;
            let nn = self@;
            assert(nn =~= with_interface(o, node@, name@)) by {
                assert(nn.nodes =~= with_interface(o, node@, name@).nodes);
            }
            assert(nn.valid()) by {
                assert forall|lk: LinkKeyV| #[trigger] nn.links.dom().contains(lk) implies nn.has_endpoint(lk.0)
                    && nn.has_endpoint(lk.1) by {
                    assert(o.links.dom().contains(lk));
                }
                assert forall|k: Seq<char>| #[trigger] nn.nodes.dom().contains(k) implies nn.nodes[k].id
                    == k && valid_id(k) && nn.nodes[k].valid() by {
                    if k != node@ {
                        assert(o.nodes.dom().contains(k));
                    }
                }
            }
        }
        Ok(())
    }

    /// Remove an interface. Fails while any link references it.
    pub fn remove_interface(&mut self, node: &str, name: &str) -> (r: Result<(), ModelError>)
        requires
            old(self).wf(),
        ensures
            final(self).wf(),
            r is Ok <==> old(self)@.nodes.dom().contains(node@) && !old(self)@.iface_linked(
                (node@, name@),
            ) && old(self)@.nodes[node@].interfaces.dom().contains(name@),
            r is Ok ==> final(self)@ == without_interface(old(self)@, node@, name@),
            r is Err ==> final(self)@ == old(self)@,
            !old(self)@.nodes.dom().contains(node@) ==> (r matches Err(
                ModelError::NodeMissing { id: x },
            ) && x@ == node@),
            old(self)@.nodes.dom().contains(node@) && old(self)@.iface_linked((node@, name@)) ==> (
            r matches Err(ModelError::InterfaceInUse { node: x, name: y, links }) && x@ == node@
                && y@ == name@ && pair_views(links@) == key_texts(
                old(self).link_keys().filter(touches_endpoint((node@, name@))),
            )),
            old(self)@.nodes.dom().contains(node@) && !old(self)@.iface_linked((node@, name@))
                && !old(self)@.nodes[node@].interfaces.dom().contains(name@) ==> (r matches Err(
                ModelError::InterfaceMissing { node: x, name: y },
            ) && x@ == node@ && y@ == name@),
    {
        let key = owned(node);
        if !self.nodes.contains_key(&key) {
            return Err(ModelError::NodeMissing { id: key });
        }
        let attached = self.links_matching(node, Some(name));
        proof {
            let p = touches_endpoint((node@, name@));
            self.lemma_orders();
            lemma_filter_empty(self.link_keys(), p);
            if self@.iface_linked((node@, name@)) {
                let lk = choose|lk: LinkKeyV| #[trigger] self@.links.dom().contains(lk) && (lk.0
                    == (node@, name@) || lk.1 == (node@, name@));
                let j = choose|j: int| 0 <= j < self.link_keys().len() && self.link_keys()[j] == lk;
                assert(p(self.link_keys()[j]));
            }
            if self.link_keys().filter(p).len() > 0 {
                let j = choose|j: int| 0 <= j < self.link_keys().len() && p(#[trigger] self.link_keys()[j]);
                assert(self@.links.dom().contains(self.link_keys()[j]));
            }
            assert(pair_views(attached@).len() == attached@.len());
            assert(attached@.len() > 0 <==> self@.iface_linked((node@, name@)));
        }
        if attached.len() > 0 {
            return Err(
                ModelError::InterfaceInUse { node: key, name: owned(name), links: attached },
            );
        }
        let n = match self.nodes.get(&key) {
            None => {
                return Err(ModelError::NodeMissing { id: key });
            },
            Some(n) => n,
        };
        let mut n2 = n.dup();
        let iname = owned(name);
        match n2.interfaces.remove(&iname) {
            None => {
                return Err(ModelError::InterfaceMissing { node: key, name: iname });
            },
            Some(_) => {},
        }
        proof {
            n2.interfaces.lemma_view();
            assert(n2@.valid()) by {
                assert forall|j: Seq<char>| #[trigger] n2@.interfaces.dom().contains(j) implies n2@.interfaces[j].name
                    == j && valid_id(j) by {
                    assert(n@.interfaces.dom().contains(j));
                }
            }
        }
        self.nodes.insert(key, n2);
        proof {
            let o = old(self)@;
            let nn = self@;
            assert(nn =~= without_interface(o, node@, name@)) by {
                assert(nn.nodes =~= without_interface(o, node@, name@).nodes);
            }
            assert(nn.valid()) by {
                assert forall|lk: LinkKeyV| #[trigger] nn.links.dom().contains(lk) implies nn.has_endpoint(lk.0)
                    && nn.has_endpoint(lk.1) by {
                    assert(o.links.dom().contains(lk));
                    assert(!(lk.0 == (node@, name@) || lk.1 == (node@, name@)));
                }
                assert forall|k: Seq<char>| #[trigger] nn.nodes.dom().contains(k) implies nn.nodes[k].id
                    == k && valid_id(k) && nn.nodes[k].valid() by {
                    if k != node@ {
                        assert(o.nodes.dom().contains(k));
                    }
                }
            }
        }
        Ok(())
    }
}


impl Network {
    /// Add a link between two existing interfaces. Rejects self-loops,
    /// same-node loops and duplicates (in either direction).
    pub fn add_link(&mut self, a: Endpoint, b: Endpoint) -> (r: Result<(), ModelError>)
        requires
            old(self).wf(),
        ensures
            final(self).wf(),
            r is Ok <==> old(self)@.has_endpoint(a@) && old(self)@.has_endpoint(b@) && a@.0 != b@.0
                && !old(self)@.links.dom().contains(norm_key(a@, b@)),
            r is Ok ==> final(self)@ == (NetworkV {
                nodes: old(self)@.nodes,
                links: old(self)@.links.insert(norm_key(a@, b@), bare_link(norm_key(a@, b@))),
            }),
            r is Err ==> final(self)@ == old(self)@,
            !old(self)@.has_endpoint(a@) ==> (r matches Err(e) && endpoint_error(old(self)@, a@, e)),
            old(self)@.has_endpoint(a@) && !old(self)@.has_endpoint(b@) ==> (r matches Err(e)
                && endpoint_error(old(self)@, b@, e)),
            old(self)@.has_endpoint(a@) && old(self)@.has_endpoint(b@) && a@ == b@ ==> (r matches Err(
                ModelError::SelfLoop { endpoint },
            ) && endpoint@ == ep_text(a@)),
            old(self)@.has_endpoint(a@) && old(self)@.has_endpoint(b@) && a@ != b@ && a@.0 == b@.0
                ==> (r matches Err(ModelError::SameNodeLoop { node }) && node@ == a@.0),
            old(self)@.has_endpoint(a@) && old(self)@.has_endpoint(b@) && a@.0 != b@.0 && old(
                self,
            )@.links.dom().contains(norm_key(a@, b@)) ==> (r matches Err(
                ModelError::LinkExists { a: x, b: y },
            ) && x@ == ep_text(norm_key(a@, b@).0) && y@ == ep_text(norm_key(a@, b@).1)),
    {
        self.ensure_endpoint(&a)?;
        self.ensure_endpoint(&b)?;
        let link = Link::new(a, b)?;
        let key = link.key();
        if self.links.contains_key(&key) {
            return Err(ModelError::LinkExists { a: key.0.text(), b: key.1.text() });
        }
        self.links.insert(key, link);
        proof {
            let o = old(self)@;
            let n = self@;
            assert(n.valid()) by {
                assert forall|lk: LinkKeyV| #[trigger] n.links.dom().contains(lk) implies n.links[lk].a
                    == lk.0 && n.links[lk].b == lk.1 && ep_lt(lk.0, lk.1) && lk.0.0 != lk.1.0
                    && n.has_endpoint(lk.0) && n.has_endpoint(lk.1) by {
                    if lk != norm_key(a@, b@) {
                        assert(o.links.dom().contains(lk));
                    }
                }
            }
            assert(n.links =~= o.links.insert(norm_key(a@, b@), bare_link(norm_key(a@, b@))));
        }
        Ok(())
    }

    /// Remove a link. Accepts the endpoints in either order.
    pub fn remove_link(&mut self, a: Endpoint, b: Endpoint) -> (r: Result<(), ModelError>)
        requires
            old(self).wf(),
        ensures
            final(self).wf(),
            r is Ok <==> old(self)@.has_endpoint(a@) && old(self)@.has_endpoint(b@) && old(
                self,
            )@.links.dom().contains(norm_key(a@, b@)),
            r is Ok ==> final(self)@ == (NetworkV {
                nodes: old(self)@.nodes,
                links: old(self)@.links.remove(norm_key(a@, b@)),
            }),
            r is Err ==> final(self)@ == old(self)@,
            !old(self)@.has_endpoint(a@) ==> (r matches Err(e) && endpoint_error(old(self)@, a@, e)),
            old(self)@.has_endpoint(a@) && !old(self)@.has_endpoint(b@) ==> (r matches Err(e)
                && endpoint_error(old(self)@, b@, e)),
            old(self)@.has_endpoint(a@) && old(self)@.has_endpoint(b@) && !old(
                self,
            )@.links.dom().contains(norm_key(a@, b@)) ==> (r matches Err(
                ModelError::LinkMissing { a: x, b: y },
            ) && x@ == ep_text(norm_key(a@, b@).0) && y@ == ep_text(norm_key(a@, b@).1)),
    {
        self.ensure_endpoint(&a)?;
        self.ensure_endpoint(&b)?;
        let key = if ep_less(&b, &a) {
            (b, a)
        } else {
            (a, b)
        };
        match self.links.remove(&key) {
            None => {
                proof {
                    assert(self.links.map() =~= old(self).links.map());
                    assert(self@ =~= old(self)@);
                }
                Err(ModelError::LinkMissing { a: key.0.text(), b: key.1.text() })
            },
            Some(_) => {
                proof {
                    let o = old(self)@;
                    let n = self@;
                    assert(n.valid()) by {
                        assert forall|lk: LinkKeyV| #[trigger] n.links.dom().contains(lk) implies n.links[lk].a
                            == lk.0 && n.links[lk].b == lk.1 && ep_lt(lk.0, lk.1) && n.has_endpoint(
                            lk.0,
                        ) && n.has_endpoint(lk.1) by {
                            assert(o.links.dom().contains(lk));
                        }
                    }
                }
                Ok(())
            },
        }
    }

    /// Insert an already-normalized link (used when decoding). Enforces
    /// normalization (`a < b`), endpoint existence and uniqueness.
    pub fn add_existing_link(&mut self, link: Link) -> (r: Result<(), ModelError>)
        requires
            old(self).wf(),
            link.metadata.wf(),
        ensures
            final(self).wf(),
            r is Ok <==> ep_lt(link.a@, link.b@) && link.a@.0 != link.b@.0 && old(self)@.has_endpoint(
                link.a@,
            ) && old(self)@.has_endpoint(link.b@) && !old(self)@.links.dom().contains((link.a@, link.b@)),
            r is Ok ==> final(self)@ == (NetworkV {
                nodes: old(self)@.nodes,
                links: old(self)@.links.insert((link.a@, link.b@), link@),
            }),
            r is Err ==> final(self)@ == old(self)@,
            !ep_lt(link.a@, link.b@) ==> (r matches Err(ModelError::InvalidId { id, reason }) && id@
                == ep_text(link.b@) + ">"@ + ep_text(link.a@) && reason@
                == "link endpoints must be normalized (a < b)"@),
            ep_lt(link.a@, link.b@) && link.a@.0 == link.b@.0 ==> (r matches Err(
                ModelError::SameNodeLoop { node },
            ) && node@ == link.a@.0),
            ep_lt(link.a@, link.b@) && link.a@.0 != link.b@.0 && !old(self)@.has_endpoint(link.a@) ==> (
            r matches Err(e) && endpoint_error(old(self)@, link.a@, e)),
            ep_lt(link.a@, link.b@) && link.a@.0 != link.b@.0 && old(self)@.has_endpoint(link.a@)
                && !old(self)@.has_endpoint(link.b@) ==> (r matches Err(e) && endpoint_error(
                old(self)@,
                link.b@,
                e,
            )),
            ep_lt(link.a@, link.b@) && link.a@.0 != link.b@.0 && old(self)@.has_endpoint(link.a@) && old(
                self,
            )@.has_endpoint(link.b@) && old(self)@.links.dom().contains((link.a@, link.b@)) ==> (
            r matches Err(ModelError::LinkExists { a: x, b: y }) && x@ == ep_text(link.a@) && y@
                == ep_text(link.b@)),
    {
        if !ep_less(&link.a, &link.b) {
            let tb = link.b.text();
            let ta = link.a.text();
            return Err(
                ModelError::InvalidId {
                    id: concat3(tb.as_str(), ">", ta.as_str()),
                    reason: "link endpoints must be normalized (a < b)",
                },
            );
        }
        if str_eq(link.a.node.as_str(), link.b.node.as_str()) {
            return Err(ModelError::SameNodeLoop { node: copy_string(&link.a.node) });
        }
        self.ensure_endpoint(&link.a)?;
        self.ensure_endpoint(&link.b)?;
        let key = link.key();
        if self.links.contains_key(&key) {
            return Err(ModelError::LinkExists { a: key.0.text(), b: key.1.text() });
        }
        let ghost lv = link@;
        self.links.insert(key, link);
        proof {
            let o = old(self)@;
            let n = self@;
            assert(n.valid()) by {
                assert forall|lk: LinkKeyV| #[trigger] n.links.dom().contains(lk) implies n.links[lk].a
                    == lk.0 && n.links[lk].b == lk.1 && ep_lt(lk.0, lk.1) && lk.0.0 != lk.1.0
                    && n.has_endpoint(lk.0) && n.has_endpoint(lk.1) by {
                    if lk != (lv.a, lv.b) {
                        assert(o.links.dom().contains(lk));
                    }
                }
            }
        }
        Ok(())
    }

    /// A well-formed network's view is valid.
    pub proof fn lemma_valid(&self)
        requires
            self.wf(),
        ensures
            self@.valid(),
    {
    }

    /// The interfaces of a well-formed network form a finite set.
    pub proof fn lemma_endpoints_finite(&self)
        requires
            self.wf(),
        ensures
            self@.endpoints().finite(),
    {
        self.lemma_endpoints();
    }

    /// The per-node interface counts add up to the number of interfaces.
    proof fn lemma_endpoints(&self)
        requires
            self.wf(),
        ensures
            self@.endpoints().finite(),
            self@.endpoints().len() == iface_sum(self.nodes.kv()),
    {
        self.nodes.lemma_view();
        lemma_iface_sum_endpoints(self.nodes.kv());
        assert(endpoints_in(self.nodes.kv()) =~= self@.endpoints()) by {
            assert forall|e: EndpointV| #[trigger] self@.endpoints().contains(e) implies endpoints_in(
                self.nodes.kv(),
            ).contains(e) by {
                let j = choose|j: int| 0 <= j < self.nodes.kv().len() && self.nodes.kv()[j].0 == e.0;
                assert(self.nodes.kv()[j].0 == e.0);
            }
        }
    }

    /// Total number of interfaces over all nodes.
    pub fn interface_count(&self) -> (n: usize)
        requires
            self.wf(),
            self@.endpoints().len() <= usize::MAX,
        ensures
            n == self@.endpoints().len(),
    {
        proof {
            self.lemma_endpoints();
        }
        let len = self.nodes.len();
        let mut total: usize = 0;
        let mut i: usize = 0;
        proof {
            assert(self.nodes.kv().take(0) =~= Seq::<(Seq<char>, NodeV)>::empty());
        }
        while i < len
            invariant
                self.wf(),
                iface_sum(self.nodes.kv()) <= usize::MAX,
                len == self.nodes.kv().len(),
                i <= len,
                total == iface_sum(self.nodes.kv().take(i as int)),
            decreases len - i,
        {
            proof {
                self.nodes.lemma_view();
            }
            let node = self.nodes.value_at(i);
            let c = node.interface_count();
            proof {
                assert(self.nodes.kv().take(i + 1).drop_last() =~= self.nodes.kv().take(i as int));
                lemma_iface_sum_prefix(self.nodes.kv(), i + 1);
            }
            total = total + c;
            i = i + 1;
        }
        proof {
            assert(self.nodes.kv().take(len as int) =~= self.nodes.kv());
        }
        total
    }
}

/// A RAHN state: the versioned container around a network.
#[derive(Debug, Clone, PartialEq, Eq)]
pub struct State {
    pub network: Network,
}

impl State {
    pub fn empty() -> (r: Self)
        ensures
            r.network.wf(),
            r.network@.nodes == Map::<Seq<char>, NodeV>::empty(),
            r.network@.links == Map::<LinkKeyV, LinkV>::empty(),
    {
        State { network: Network::empty() }
    }
}

/// Verification outcome recorded in commit records.
#[derive(Debug, Clone, PartialEq, Eq)]
pub struct VerificationSummary {
    pub passed: bool,
    /// Identifiers of invariants that failed, in evaluation order.
    pub failed_invariants: Vec<String>,
}

impl VerificationSummary {
    pub fn passed() -> (r: Self)
        ensures
            r.passed,
            r.failed_invariants@.len() == 0,
    {
        VerificationSummary { passed: true, failed_invariants: Vec::new() }
    }

    pub fn failed(ids: Vec<String>) -> (r: Self)
        ensures
            !r.passed,
            r.failed_invariants@ == ids@,
    {
        VerificationSummary { passed: false, failed_invariants: ids }
    }
}


impl Network {
    /// A copy with the same view.
    pub fn duplicate(&self) -> (r: Self)
        requires
            self.wf(),
        ensures
            r.wf(),
            r@ == self@,
            r.node_ids() == self.node_ids(),
            r.link_keys() == self.link_keys(),
    {
        let r = Network { nodes: self.nodes.duplicate(), links: self.links.duplicate() };
        r
    }
}

impl Node {
    /// A node assembled from already-checked parts (used when decoding).
    pub(crate) fn assemble(
        id: String,
        metadata: Metadata,
        interfaces: SortedMap<String, Interface>,
    ) -> (r: Self)
        requires
            metadata.wf(),
            interfaces.wf(),
            interfaces.values_inv(),
            forall|j: Seq<char>| #[trigger]
                interfaces.map().dom().contains(j) ==> interfaces.map()[j].name == j && valid_id(j),
        ensures
            r.wf(),
            r@ == (NodeV { id: id@, metadata: metadata@, interfaces: interfaces.map() }),
    {
        let r = Node { id, metadata, interfaces };
        proof {
            r.interfaces.lemma_view();
        }
        r
    }
}

impl Network {
    /// Insert a complete node under a fresh id (used when decoding).
    pub(crate) fn put_node(&mut self, node: Node)
        requires
            old(self).wf(),
            node.wf(),
            valid_id(node@.id),
            !old(self)@.nodes.dom().contains(node@.id),
        ensures
            final(self).wf(),
            final(self)@ == (NetworkV {
                nodes: old(self)@.nodes.insert(node@.id, node@),
                links: old(self)@.links,
            }),
    {
        let key = copy_string(&node.id);
        let ghost nv = node@;
        self.nodes.insert(key, node);
        proof {
            let o = old(self)@;
            let n = self@;
            assert(n.valid()) by {
                assert forall|lk: LinkKeyV| #[trigger] n.links.dom().contains(lk) implies n.has_endpoint(lk.0)
                    && n.has_endpoint(lk.1) by {
                    assert(o.links.dom().contains(lk));
                    assert(o.has_endpoint(lk.0));
                    assert(o.has_endpoint(lk.1));
                }
                assert forall|k: Seq<char>| #[trigger] n.nodes.dom().contains(k) implies n.nodes[k].id == k
                    && valid_id(k) && n.nodes[k].valid() by {
                    if k != nv.id {
                        assert(o.nodes.dom().contains(k));
                    }
                }
            }
        }
    }

    /// A well-formed network is valid, and every metadata map it holds is
    /// finite.
    pub proof fn lemma_metadata_finite(&self)
        requires
            self.wf(),
        ensures
            self@.valid(),
            forall|k: Seq<char>| #[trigger]
                self@.nodes.dom().contains(k) ==> self@.nodes[k].metadata.dom().finite(),
            forall|k: Seq<char>, j: Seq<char>|
                self@.nodes.dom().contains(k) && #[trigger] self@.nodes[k].interfaces.dom().contains(j)
                    ==> self@.nodes[k].interfaces[j].metadata.dom().finite(),
            forall|lk: LinkKeyV| #[trigger]
                self@.links.dom().contains(lk) ==> self@.links[lk].metadata.dom().finite(),
    {
        self.nodes.lemma_view();
        self.links.lemma_view();
        assert forall|k: Seq<char>| #[trigger] self@.nodes.dom().contains(k) implies self@.nodes[k].metadata.dom().finite()
            && forall|j: Seq<char>| #[trigger] self@.nodes[k].interfaces.dom().contains(j)
                ==> self@.nodes[k].interfaces[j].metadata.dom().finite() by {
            let i = choose|i: int| 0 <= i < self.nodes.kv().len() && self.nodes.kv()[i].0 == k;
            let node = self.nodes.raw()[i].1;
            assert(node.inv());
            assert(self@.nodes[k] == node@);
            node.metadata.lemma_entries();
            node.interfaces.lemma_view();
            assert forall|j: Seq<char>| #[trigger] self@.nodes[k].interfaces.dom().contains(j)
                implies self@.nodes[k].interfaces[j].metadata.dom().finite() by {
                let x = choose|x: int| 0 <= x < node.interfaces.kv().len() && node.interfaces.kv()[x].0 == j;
                let ifc = node.interfaces.raw()[x].1;
                assert(ifc.inv());
                ifc.metadata.lemma_entries();
                assert(self@.nodes[k].interfaces[j] == ifc@);
            }
        }
        assert forall|lk: LinkKeyV| #[trigger] self@.links.dom().contains(lk) implies self@.links[lk].metadata.dom().finite() by {
            let i = choose|i: int| 0 <= i < self.links.kv().len() && self.links.kv()[i].0 == lk;
            let l = self.links.raw()[i].1;
            assert(l.inv());
            l.metadata.lemma_entries();
            assert(self@.links[lk] == l@);
        }
    }
}

impl Node {
    /// The node's id.
    pub fn id_ref(&self) -> (r: &String)
        ensures
            r@ == self@.id,
    {
        &self.id
    }

    /// The node's metadata.
    pub fn metadata_ref(&self) -> (r: &Metadata)
        ensures
            r@ == self@.metadata,
            self.wf() ==> r.wf(),
    {
        &self.metadata
    }
}

impl Node {
    /// A well-formed node's view is valid.
    pub proof fn lemma_valid(&self)
        requires
            self.wf(),
        ensures
            self@.valid(),
    {
    }

    /// Add an interface under a fresh valid name (used when decoding).
    pub(crate) fn attach(&mut self, x: Interface)
        requires
            old(self).wf(),
            x.metadata.wf(),
            valid_id(x.name@),
            !old(self)@.interfaces.dom().contains(x.name@),
        ensures
            final(self).wf(),
            final(self)@ == (NodeV {
                id: old(self)@.id,
                metadata: old(self)@.metadata,
                interfaces: old(self)@.interfaces.insert(x.name@, x@),
            }),
    {
        let key = copy_string(&x.name);
        let ghost xv = x@;
        self.interfaces.insert(key, x);
        proof {
            self.interfaces.lemma_view();
            assert(self@.valid()) by {
                assert forall|j: Seq<char>| #[trigger] self@.interfaces.dom().contains(j) implies self@.interfaces[j].name
                    == j && valid_id(j) by {
                    if j != xv.name {
                        assert(old(self)@.interfaces.dom().contains(j));
                    }
                }
            }
        }
    }
}

impl Network {
    /// The position of a node in id order.
    pub fn node_index(&self, id: &str) -> (r: Option<usize>)
        requires
            self.wf(),
        ensures
            r is Some <==> self@.nodes.dom().contains(id@),
            r matches Some(i) ==> i < self.node_ids().len() && self.node_ids()[i as int] == id@,
    {
        let k = owned(id);
        proof {
            self.nodes.lemma_view();
        }
        let r = self.nodes.find(&k);
        proof {
            if let Some(i) = r {
                assert(self.node_ids()[i as int] == self.nodes.kv()[i as int].0);
            }
        }
        r
    }
}

impl Metadata {
    /// Whether two metadata hold the same entries.
    pub fn same(&self, other: &Metadata) -> (r: bool)
        requires
            self.wf(),
            other.wf(),
        ensures
            r == (self@ == other@),
    {
        proof {
            self.map.lemma_view();
            other.map.lemma_view();
        }
        if self.map.len() != other.map.len() {
            proof {
                if self@ == other@ {
                    self.lemma_unique(other);
                }
            }
            return false;
        }
        let n = self.map.len();
        let mut i: usize = 0;
        while i < n
            invariant
                self.wf(),
                other.wf(),
                n == self.map.kv().len(),
                n == other.map.kv().len(),
                i <= n,
                forall|j: int| 0 <= j < i ==> self.map.kv()[j] == other.map.kv()[j],
            decreases n - i,
        {
            let ka = self.map.key_at(i);
            let kb = other.map.key_at(i);
            let va = self.map.value_at(i);
            let vb = other.map.value_at(i);
            if !str_eq(ka.as_str(), kb.as_str()) || !str_eq(va.as_str(), vb.as_str()) {
                proof {
                    if self@ == other@ {
                        self.lemma_unique(other);
                    }
                }
                return false;
            }
            i = i + 1;
        }
        proof {
            assert(self.map.kv() =~= other.map.kv());
        }
        true
    }
}

} // verus!
