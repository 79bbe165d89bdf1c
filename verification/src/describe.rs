//! Human-readable text for model errors and the small formatting helpers
//! it needs (decimal numbers, quoted strings, joined lists).
use vstd::prelude::*;
use crate::model::{ModelError, Metadata, Link, ep_text, push_str};
use crate::text::owned;
use crate::transition::{Operation, TransitionError};
use crate::merge::MergeConflict;
use crate::canonical::CanonicalError;
use crate::constitution::ConstitutionError;

verus! {

/// The text `std`'s `Debug` formatting gives a string slice: the string in
/// double quotes, with special characters escaped.
pub uninterp spec fn debug_str_spec(s: Seq<char>) -> Seq<char>;

/// Quote a string the way `{:?}` does.
///
/// Trusted: calls `format!("{:?}", s)`; the contract names the result as a
/// function of the string alone.
#[verifier::external_body]
pub fn debug_str(s: &str) -> (r: String)
    ensures
        r@ == debug_str_spec(s@),
{
    format!("{s:?}")
}

/// The decimal digits of a number.
pub open spec fn decimal(n: nat) -> Seq<char>
    decreases n,
{
    if n < 10 {
        seq![digit_char(n)]
    } else {
        decimal(n / 10).push(digit_char(n % 10))
    }
}

/// The character of a decimal digit.
pub open spec fn digit_char(d: nat) -> char {
    if d == 0 {
        '0'
    } else if d == 1 {
        '1'
    } else if d == 2 {
        '2'
    } else if d == 3 {
        '3'
    } else if d == 4 {
        '4'
    } else if d == 5 {
        '5'
    } else if d == 6 {
        '6'
    } else if d == 7 {
        '7'
    } else if d == 8 {
        '8'
    } else {
        '9'
    }
}

fn digit_str(d: usize) -> (r: &'static str)
    requires
        d < 10,
    ensures
        r@ == seq![digit_char(d as nat)],
{
    proof {
        reveal_strlit("0");
        reveal_strlit("1");
        reveal_strlit("2");
        reveal_strlit("3");
        reveal_strlit("4");
        reveal_strlit("5");
        reveal_strlit("6");
        reveal_strlit("7");
        reveal_strlit("8");
        reveal_strlit("9");
    }
    if d == 0 {
        "0"
    } else if d == 1 {
        "1"
    } else if d == 2 {
        "2"
    } else if d == 3 {
        "3"
    } else if d == 4 {
        "4"
    } else if d == 5 {
        "5"
    } else if d == 6 {
        "6"
    } else if d == 7 {
        "7"
    } else if d == 8 {
        "8"
    } else {
        "9"
    }
}

/// The decimal text of a number.
pub fn decimal_text(n: usize) -> (r: String)
    ensures
        r@ == decimal(n as nat),
    decreases n,
{
    if n < 10 {
        owned(digit_str(n))
    } else {
        let mut s = decimal_text(n / 10);
        push_str(&mut s, digit_str(n % 10));
        s
    }
}

/// The decimal text of a 64-bit number.
pub fn u64_text(n: u64) -> (r: String)
    ensures
        r@ == decimal(n as nat),
    decreases n,
{
    if n < 10 {
        owned(digit_str(n as usize))
    } else {
        let mut s = u64_text(n / 10);
        push_str(&mut s, digit_str((n % 10) as usize));
        s
    }
}

/// The decimal text of a signed number, with `-` for negatives.
pub open spec fn signed_decimal(n: int) -> Seq<char> {
    if n < 0 {
        "-"@ + decimal((-n) as nat)
    } else {
        decimal(n as nat)
    }
}

/// The decimal text of a signed 64-bit number.
pub fn i64_text(n: i64) -> (r: String)
    ensures
        r@ == signed_decimal(n as int),
{
    if n < 0 {
        let m: u64 = (0i128 - (n as i128)) as u64;
        let mut s = owned("-");
        let t = u64_text(m);
        push_str(&mut s, t.as_str());
        s
    } else {
        u64_text(n as u64)
    }
}

/// `(a, b)` pairs written as `{:?}` writes a vector of string pairs.
pub open spec fn debug_pairs(v: Seq<(Seq<char>, Seq<char>)>) -> Seq<char> {
    "["@ + debug_pair_items(v) + "]"@
}

/// The comma-separated items of a pair list.
pub open spec fn debug_pair_items(v: Seq<(Seq<char>, Seq<char>)>) -> Seq<char>
    decreases v.len(),
{
    if v.len() == 0 {
        Seq::empty()
    } else if v.len() == 1 {
        debug_pair(v[0])
    } else {
        debug_pair_items(v.drop_last()) + ", "@ + debug_pair(v.last())
    }
}

/// One pair as `{:?}` writes it.
pub open spec fn debug_pair(p: (Seq<char>, Seq<char>)) -> Seq<char> {
    "("@ + debug_str_spec(p.0) + ", "@ + debug_str_spec(p.1) + ")"@
}

fn debug_pairs_text(v: &Vec<(String, String)>) -> (r: String)
    ensures
        r@ == debug_pairs(crate::model::pair_views(v@)),
{
    let ghost pv = crate::model::pair_views(v@);
    let mut s = owned("[");
    let mut i: usize = 0;
    while i < v.len()
        invariant
            i <= v@.len(),
            pv == crate::model::pair_views(v@),
            s@ == "["@ + debug_pair_items(pv.take(i as int)),
        decreases v@.len() - i,
    {
        if i > 0 {
            push_str(&mut s, ", ");
        }
        push_str(&mut s, "(");
        let qa = debug_str(v[i].0.as_str());
        push_str(&mut s, qa.as_str());
        push_str(&mut s, ", ");
        let qb = debug_str(v[i].1.as_str());
        push_str(&mut s, qb.as_str());
        push_str(&mut s, ")");
        proof {
            let t = pv.take(i + 1);
            assert(t.drop_last() =~= pv.take(i as int));
            assert(t.last() == (v@[i as int].0@, v@[i as int].1@));
            if i == 0 {
                assert(t.len() == 1);
            }
            assert(s@ =~= "["@ + debug_pair_items(t));
        }
        i = i + 1;
    }
    push_str(&mut s, "]");
    proof {
        assert(pv.take(v@.len() as int) =~= pv);
    }
    s
}

/// The human-readable text of a model error.
pub open spec fn model_error_text(e: ModelError) -> Seq<char> {
    match e {
        ModelError::InvalidId { id, reason } => "invalid identifier "@ + debug_str_spec(id@) + ": "@
            + reason@,
        ModelError::SelfLoop { endpoint } => "invalid topology: self-loop on endpoint "@
            + debug_str_spec(endpoint@) + " is prohibited"@,
        ModelError::SameNodeLoop { node } => "invalid topology: link between two interfaces of node "@
            + debug_str_spec(node@) + " is prohibited"@,
        ModelError::NodeMissing { id } => "node "@ + debug_str_spec(id@) + " does not exist"@,
        ModelError::NodeExists { id } => "node "@ + debug_str_spec(id@) + " already exists"@,
        ModelError::InterfaceMissing { node, name } => "interface "@ + debug_str_spec(name@)
            + " does not exist on node "@ + debug_str_spec(node@),
        ModelError::InterfaceExists { node, name } => "interface "@ + debug_str_spec(name@)
            + " already exists on node "@ + debug_str_spec(node@),
        ModelError::LinkMissing { a, b } => "link "@ + debug_str_spec(a@) + " <-> "@ + debug_str_spec(
            b@,
        ) + " does not exist"@,
        ModelError::LinkExists { a, b } => "link "@ + debug_str_spec(a@) + " <-> "@ + debug_str_spec(
            b@,
        ) + " already exists"@,
        ModelError::NodeInUse { id, links } => "node "@ + debug_str_spec(id@)
            + " cannot be removed while "@ + decimal(links@.len()) + " link(s) reference it: "@
            + debug_pairs(crate::model::pair_views(links@)),
        ModelError::InterfaceInUse { node, name, links } => "interface "@ + debug_str_spec(name@)
            + " on node "@ + debug_str_spec(node@) + " cannot be removed while "@ + decimal(
            links@.len(),
        ) + " link(s) reference it: "@ + debug_pairs(crate::model::pair_views(links@)),
    }
}

/// Build `a + q(x) + b` where `q` quotes.
fn quoted_between(a: &str, x: &str, b: &str) -> (r: String)
    ensures
        r@ == a@ + debug_str_spec(x@) + b@,
{
    let mut s = owned(a);
    let q = debug_str(x);
    push_str(&mut s, q.as_str());
    push_str(&mut s, b);
    s
}

impl ModelError {
    /// The human-readable text of the error.
    pub fn message(&self) -> (r: String)
        ensures
            r@ == model_error_text(*self),
    {
        match self {
            ModelError::InvalidId { id, reason } => {
                let mut s = quoted_between("invalid identifier ", id.as_str(), ": ");
                push_str(&mut s, reason);
                s
            },
            ModelError::SelfLoop { endpoint } => quoted_between(
                "invalid topology: self-loop on endpoint ",
                endpoint.as_str(),
                " is prohibited",
            ),
            ModelError::SameNodeLoop { node } => quoted_between(
                "invalid topology: link between two interfaces of node ",
                node.as_str(),
                " is prohibited",
            ),
            ModelError::NodeMissing { id } => quoted_between("node ", id.as_str(), " does not exist"),
            ModelError::NodeExists { id } => quoted_between("node ", id.as_str(), " already exists"),
            ModelError::InterfaceMissing { node, name } => {
                let mut s = quoted_between("interface ", name.as_str(), " does not exist on node ");
                let q = debug_str(node.as_str());
                push_str(&mut s, q.as_str());
                s
            },
            ModelError::InterfaceExists { node, name } => {
                let mut s = quoted_between("interface ", name.as_str(), " already exists on node ");
                let q = debug_str(node.as_str());
                push_str(&mut s, q.as_str());
                s
            },
            ModelError::LinkMissing { a, b } => {
                let mut s = quoted_between("link ", a.as_str(), " <-> ");
                let t = quoted_between("", b.as_str(), " does not exist");
                push_str(&mut s, t.as_str());
                proof {
                    reveal_strlit("");
                    assert(""@ + debug_str_spec(b@) =~= debug_str_spec(b@));
                }
                s
            },
            ModelError::LinkExists { a, b } => {
                let mut s = quoted_between("link ", a.as_str(), " <-> ");
                let t = quoted_between("", b.as_str(), " already exists");
                push_str(&mut s, t.as_str());
                proof {
                    reveal_strlit("");
                    assert(""@ + debug_str_spec(b@) =~= debug_str_spec(b@));
                }
                s
            },
            ModelError::NodeInUse { id, links } => {
                let mut s = quoted_between("node ", id.as_str(), " cannot be removed while ");
                let n = decimal_text(links.len());
                push_str(&mut s, n.as_str());
                push_str(&mut s, " link(s) reference it: ");
                let l = debug_pairs_text(links);
                push_str(&mut s, l.as_str());
                s
            },
            ModelError::InterfaceInUse { node, name, links } => {
                let mut s = quoted_between("interface ", name.as_str(), " on node ");
                let q = debug_str(node.as_str());
                push_str(&mut s, q.as_str());
                push_str(&mut s, " cannot be removed while ");
                let n = decimal_text(links.len());
                push_str(&mut s, n.as_str());
                push_str(&mut s, " link(s) reference it: ");
                let l = debug_pairs_text(links);
                push_str(&mut s, l.as_str());
                s
            },
        }
    }
}

/// Map entries written as `{:?}` writes a string map.
pub open spec fn debug_map(es: Seq<(Seq<char>, Seq<char>)>) -> Seq<char> {
    "{"@ + debug_entry_items(es) + "}"@
}

/// The comma-separated `"key": "value"` items of a map.
pub open spec fn debug_entry_items(es: Seq<(Seq<char>, Seq<char>)>) -> Seq<char>
    decreases es.len(),
{
    if es.len() == 0 {
        Seq::empty()
    } else if es.len() == 1 {
        debug_entry(es[0])
    } else {
        debug_entry_items(es.drop_last()) + ", "@ + debug_entry(es.last())
    }
}

/// One entry as `{:?}` writes it in a map.
pub open spec fn debug_entry(p: (Seq<char>, Seq<char>)) -> Seq<char> {
    debug_str_spec(p.0) + ": "@ + debug_str_spec(p.1)
}

/// Metadata written as `{:?}` writes a string map: its entries in key
/// order.
pub fn metadata_debug(md: &Metadata) -> (r: String)
    ensures
        r@ == debug_map(md.entries()),
{
    let ghost es = md.entries();
    let mut s = owned("{");
    let mut i: usize = 0;
    while i < md.len()
        invariant
            i <= es.len(),
            es == md.entries(),
            s@ == "{"@ + debug_entry_items(es.take(i as int)),
        decreases es.len() - i,
    {
        if i > 0 {
            push_str(&mut s, ", ");
        }
        let (k, v) = md.entry_at(i);
        let qk = debug_str(k.as_str());
        push_str(&mut s, qk.as_str());
        push_str(&mut s, ": ");
        let qv = debug_str(v.as_str());
        push_str(&mut s, qv.as_str());
        proof {
            let t = es.take(i + 1);
            assert(t.drop_last() =~= es.take(i as int));
            assert(t.last() == es[i as int]);
            if i == 0 {
                assert(t.len() == 1);
            }
            assert(s@ =~= "{"@ + debug_entry_items(t));
        }
        i = i + 1;
    }
    push_str(&mut s, "}");
    proof {
        assert(es.take(es.len() as int) =~= es);
    }
    s
}

/// The human-readable text of a transition rejection.
pub open spec fn transition_error_text(e: TransitionError) -> Seq<char> {
    match e {
        TransitionError::Invalid(m) => "transition rejected: "@ + model_error_text(m),
    }
}

impl TransitionError {
    /// The human-readable text of the rejection.
    pub fn message(&self) -> (r: String)
        ensures
            r@ == transition_error_text(*self),
    {
        match self {
            TransitionError::Invalid(m) => {
                let mut s = owned("transition rejected: ");
                let t = m.message();
                push_str(&mut s, t.as_str());
                s
            },
        }
    }
}

/// The text form of a link: `a <-> b`.
pub open spec fn link_text(l: Link) -> Seq<char> {
    ep_text(l.a@) + " <-> "@ + ep_text(l.b@)
}

impl Link {
    /// The text form `node/iface <-> node/iface`.
    pub fn text(&self) -> (r: String)
        ensures
            r@ == link_text(*self),
    {
        let mut s = self.a.text();
        push_str(&mut s, " <-> ");
        let b = self.b.text();
        push_str(&mut s, b.as_str());
        s
    }
}

/// The text form of an operation, as a commit lists it.
pub open spec fn operation_text(op: Operation) -> Seq<char> {
    match op {
        Operation::AddNode { id, .. } => "add_node "@ + id@,
        Operation::RemoveNode { id } => "remove_node "@ + id@,
        Operation::AddInterface { node, name } => "add_interface "@ + node@ + "/"@ + name@,
        Operation::RemoveInterface { node, name } => "remove_interface "@ + node@ + "/"@ + name@,
        Operation::AddLink { a, b } => "add_link "@ + ep_text(a@) + " "@ + ep_text(b@),
        Operation::RemoveLink { a, b } => "remove_link "@ + ep_text(a@) + " "@ + ep_text(b@),
    }
}

impl Operation {
    /// The text form of the operation.
    pub fn text(&self) -> (r: String)
        ensures
            r@ == operation_text(*self),
    {
        match self {
            Operation::AddNode { id, .. } => {
                let mut s = owned("add_node ");
                push_str(&mut s, id.as_str());
                s
            },
            Operation::RemoveNode { id } => {
                let mut s = owned("remove_node ");
                push_str(&mut s, id.as_str());
                s
            },
            Operation::AddInterface { node, name } => {
                let mut s = owned("add_interface ");
                push_str(&mut s, node.as_str());
                push_str(&mut s, "/");
                push_str(&mut s, name.as_str());
                s
            },
            Operation::RemoveInterface { node, name } => {
                let mut s = owned("remove_interface ");
                push_str(&mut s, node.as_str());
                push_str(&mut s, "/");
                push_str(&mut s, name.as_str());
                s
            },
            Operation::AddLink { a, b } => {
                let mut s = owned("add_link ");
                let x = a.text();
                push_str(&mut s, x.as_str());
                push_str(&mut s, " ");
                let y = b.text();
                push_str(&mut s, y.as_str());
                s
            },
            Operation::RemoveLink { a, b } => {
                let mut s = owned("remove_link ");
                let x = a.text();
                push_str(&mut s, x.as_str());
                push_str(&mut s, " ");
                let y = b.text();
                push_str(&mut s, y.as_str());
                s
            },
        }
    }
}

/// The lines listing conflicts, each `  - c` and a newline.
pub open spec fn conflict_lines(cs: Seq<Seq<char>>) -> Seq<char>
    decreases cs.len(),
{
    if cs.len() == 0 {
        Seq::empty()
    } else {
        conflict_lines(cs.drop_last()) + "  - "@ + cs.last() + "\n"@
    }
}

impl MergeConflict {
    /// The text of a refused merge: a header with the number of conflicts,
    /// then one line per conflict.
    pub fn message(&self) -> (r: String)
        ensures
            r@ == "merge rejected: "@ + decimal(self.conflicts@.len()) + " semantic conflict(s):\n"@
                + conflict_lines(crate::diff::str_views(self.conflicts@)),
    {
        let mut s = owned("merge rejected: ");
        let n = decimal_text(self.conflicts.len());
        push_str(&mut s, n.as_str());
        push_str(&mut s, " semantic conflict(s):\n");
        let ghost head = s@;
        let mut i: usize = 0;
        while i < self.conflicts.len()
            invariant
                i <= self.conflicts@.len(),
                s@ == head + conflict_lines(crate::diff::str_views(self.conflicts@.take(i as int))),
            decreases self.conflicts@.len() - i,
        {
            push_str(&mut s, "  - ");
            push_str(&mut s, self.conflicts[i].as_str());
            push_str(&mut s, "\n");
            proof {
                let t = crate::diff::str_views(self.conflicts@.take(i + 1));
                assert(t.drop_last() =~= crate::diff::str_views(self.conflicts@.take(i as int)));
                assert(t.last() == self.conflicts@[i as int]@);
            }
            i = i + 1;
        }
        proof {
            assert(self.conflicts@.take(self.conflicts@.len() as int) =~= self.conflicts@);
        }
        s
    }
}

impl CanonicalError {
    /// The text of a parse failure, with its byte offset.
    pub fn text(&self) -> (r: String)
        ensures
            r@ == "canonical parse error at byte "@ + decimal(self.offset as nat) + ": "@ + self.message@,
    {
        let mut s = owned("canonical parse error at byte ");
        let n = decimal_text(self.offset);
        push_str(&mut s, n.as_str());
        push_str(&mut s, ": ");
        push_str(&mut s, self.message.as_str());
        s
    }
}

impl ConstitutionError {
    /// The text of a rejected constitution line.
    pub fn text(&self) -> (r: String)
        ensures
            r@ == "constitution line "@ + decimal(self.line as nat) + ": "@ + self.message@,
    {
        let mut s = owned("constitution line ");
        let n = decimal_text(self.line);
        push_str(&mut s, n.as_str());
        push_str(&mut s, ": ");
        push_str(&mut s, self.message.as_str());
        s
    }
}

} // verus!
