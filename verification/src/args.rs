//! Argument parsing for the command-line tool. Hand-rolled and strict:
//! unknown flags, missing arguments and malformed metadata are usage
//! errors.
use vstd::prelude::*;
use crate::text::{owned, sbytes, str_eq};
use crate::model::{push_str, split_around};
use crate::describe::{debug_str, debug_str_spec};

verus! {

/// A parsed command.
#[derive(Debug, Clone, PartialEq, Eq)]
pub enum Command {
    Init,
    NodeAdd { id: String, metadata: Vec<(String, String)> },
    NodeRemove { id: String },
    InterfaceAdd { node: String, name: String },
    InterfaceRemove { node: String, name: String },
    LinkAdd { a: String, b: String },
    LinkRemove { a: String, b: String },
    Commit { message: String },
    State,
    BranchList,
    BranchCreate { name: String },
    Checkout { name: String, force: bool },
    Diff { from: String, to: String },
    Merge { branch: String },
    Path { from: String, to: String },
    Verify,
    Log,
    Inspect { name: String },
    Apply { name: String },
}

/// The view of a command.
pub enum CommandV {
    Init,
    NodeAdd(Seq<char>, Seq<(Seq<char>, Seq<char>)>),
    NodeRemove(Seq<char>),
    InterfaceAdd(Seq<char>, Seq<char>),
    InterfaceRemove(Seq<char>, Seq<char>),
    LinkAdd(Seq<char>, Seq<char>),
    LinkRemove(Seq<char>, Seq<char>),
    Commit(Seq<char>),
    State,
    BranchList,
    BranchCreate(Seq<char>),
    Checkout(Seq<char>, bool),
    Diff(Seq<char>, Seq<char>),
    Merge(Seq<char>),
    Path(Seq<char>, Seq<char>),
    Verify,
    Log,
    Inspect(Seq<char>),
    Apply(Seq<char>),
}

/// The views of string pairs.
pub open spec fn kv_views(v: Seq<(String, String)>) -> Seq<(Seq<char>, Seq<char>)> {
    v.map_values(|p: (String, String)| (p.0@, p.1@))
}

impl View for Command {
    type V = CommandV;

    open spec fn view(&self) -> CommandV {
        match self {
            Command::Init => CommandV::Init,
            Command::NodeAdd { id, metadata } => CommandV::NodeAdd(id@, kv_views(metadata@)),
            Command::NodeRemove { id } => CommandV::NodeRemove(id@),
            Command::InterfaceAdd { node, name } => CommandV::InterfaceAdd(node@, name@),
            Command::InterfaceRemove { node, name } => CommandV::InterfaceRemove(node@, name@),
            Command::LinkAdd { a, b } => CommandV::LinkAdd(a@, b@),
            Command::LinkRemove { a, b } => CommandV::LinkRemove(a@, b@),
            Command::Commit { message } => CommandV::Commit(message@),
            Command::State => CommandV::State,
            Command::BranchList => CommandV::BranchList,
            Command::BranchCreate { name } => CommandV::BranchCreate(name@),
            Command::Checkout { name, force } => CommandV::Checkout(name@, *force),
            Command::Diff { from, to } => CommandV::Diff(from@, to@),
            Command::Merge { branch } => CommandV::Merge(branch@),
            Command::Path { from, to } => CommandV::Path(from@, to@),
            Command::Verify => CommandV::Verify,
            Command::Log => CommandV::Log,
            Command::Inspect { name } => CommandV::Inspect(name@),
            Command::Apply { name } => CommandV::Apply(name@),
        }
    }
}

/// The usage text.
pub const USAGE: &'static str = "rahn \u{2014} a stateful execution architecture for evolving networks (v0.2, simulation-only)

USAGE:
    rahn init
    rahn node add <id> [key=value ...]
    rahn node remove <id>
    rahn interface add <node> <name>
    rahn interface remove <node> <name>
    rahn link add <node/iface> <node/iface>
    rahn link remove <node/iface> <node/iface>
    rahn commit -m <message>
    rahn state
    rahn branch [<name>]
    rahn checkout [--force] <branch>
    rahn diff <from-ref> <to-ref>
    rahn merge <branch>
    rahn path <from-node> <to-node>
    rahn verify
    rahn log
    rahn inspect <branch-or-commit-id>
    rahn apply <branch-or-commit-id>

REFS: a branch name or a full 64-character commit id.
ENDPOINTS: node/interface pairs (e.g. web/eth0).

v0.2 performs NO real execution: `apply` prints an execution plan only.";

/// The positional arguments land in the fields in the order the usage
/// text names them: `diff <from-ref> <to-ref>`, `path <from-node>
/// <to-node>`, `link add|remove <a> <b>`, `interface add|remove <node>
/// <name>`, and the single argument of `node remove`, `merge`, `inspect`,
/// `apply`, `branch` and `checkout`.
pub proof fn law_arguments_in_usage_order(x: Seq<char>, y: Seq<char>, c: CommandV)
    ensures
        denotes(seq!["diff"@, x, y], c) <==> c == CommandV::Diff(x, y),
        denotes(seq!["path"@, x, y], c) <==> c == CommandV::Path(x, y),
        denotes(seq!["link"@, "add"@, x, y], c) <==> c == CommandV::LinkAdd(x, y),
        denotes(seq!["link"@, "remove"@, x, y], c) <==> c == CommandV::LinkRemove(x, y),
        denotes(seq!["interface"@, "add"@, x, y], c) <==> c == CommandV::InterfaceAdd(x, y),
        denotes(seq!["interface"@, "remove"@, x, y], c) <==> c == CommandV::InterfaceRemove(x, y),
        denotes(seq!["node"@, "remove"@, x], c) <==> c == CommandV::NodeRemove(x),
        denotes(seq!["merge"@, x], c) <==> c == CommandV::Merge(x),
        denotes(seq!["inspect"@, x], c) <==> c == CommandV::Inspect(x),
        denotes(seq!["apply"@, x], c) <==> c == CommandV::Apply(x),
        denotes(seq!["branch"@, x], c) <==> c == CommandV::BranchCreate(x),
        x != "--force"@ && x != "-f"@ ==> (denotes(seq!["checkout"@, x], c) <==> c == CommandV::Checkout(
            x,
            false,
        )),
        denotes(seq!["node"@, "add"@, x], c) <==> c == CommandV::NodeAdd(x, Seq::empty()),
        x != "--force"@ && x != "-f"@ ==> (denotes(seq!["checkout"@, "--force"@, x], c) <==> c
            == CommandV::Checkout(x, true)),
        x != "--force"@ && x != "-f"@ ==> (denotes(seq!["checkout"@, x, "-f"@], c) <==> c == CommandV::Checkout(
            x,
            true,
        )),
        denotes(seq!["commit"@, "-m"@, x], c) <==> c == CommandV::Commit(x),
{
    lemma_words();
    if denotes(seq!["node"@, "add"@, x], c) {
        if let CommandV::NodeAdd(id, md) = c {
            assert(md =~= Seq::<(Seq<char>, Seq<char>)>::empty());
        }
    }
    let a = seq!["checkout"@, x];
    assert(checkout_scan(a, 2, false, Some(x)) == Some((false, Some(x))));
    if x != "--force"@ && x != "-f"@ {
        let f1 = seq!["checkout"@, "--force"@, x];
        assert(checkout_scan(f1, 3, true, Some(x)) == Some((true, Some(x))));
        assert(checkout_scan(f1, 2, true, None) == Some((true, Some(x))));
        assert(checkout_scan(f1, 1, false, None) == Some((true, Some(x))));
        let f2 = seq!["checkout"@, x, "-f"@];
        assert(checkout_scan(f2, 3, true, Some(x)) == Some((true, Some(x))));
        assert(checkout_scan(f2, 2, false, Some(x)) == Some((true, Some(x))));
        assert(checkout_scan(f2, 1, false, None) == Some((true, Some(x))));
    }
    let m = seq!["commit"@, "-m"@, x];
    assert(commit_scan(m, 3, Some(x)) == Some(Some(x)));
}

/// The first `=` of `k = v`, where `k` holds none, is right after `k`.
proof fn lemma_eq_after_key(k: Seq<u8>, rest: Seq<u8>, i: nat)
    requires
        forall|j: int| 0 <= j < k.len() ==> #[trigger] k[j] != 61,
        rest.len() > 0,
        rest[0] == 61,
        i <= k.len(),
    ensures
        eq_from(k + rest, i) == k.len(),
    decreases k.len() - i,
{
    if i < k.len() {
        assert((k + rest)[i as int] == k[i as int]);
        lemma_eq_after_key(k, rest, i + 1);
    } else {
        assert((k + rest)[i as int] == 61);
    }
}

/// A metadata argument `key=value` whose key holds no `=` gives that key
/// and that value, in that order; both must be non-empty.
pub proof fn law_metadata_argument(k: Seq<char>, v: Seq<char>)
    requires
        forall|j: int| 0 <= j < sbytes(k).len() ==> #[trigger] sbytes(k)[j] != 61,
    ensures
        kv_of(k + "="@ + v, (k, v)),
        kv_ok(k + "="@ + v) <==> k.len() > 0 && v.len() > 0,
{
    reveal_strlit("=");
    vstd::utf8::is_ascii_chars_encode_utf8("="@);
    crate::text::lemma_sbytes_concat(k, "="@);
    crate::text::lemma_sbytes_concat(k + "="@, v);
    let kb = sbytes(k);
    let eb = sbytes("="@);
    let vb = sbytes(v);
    assert(eb =~= seq![61u8]);
    let b = sbytes(k + "="@ + v);
    assert(b == kb + eb + vb);
    assert(kb + eb + vb =~= kb + (eb + vb));
    lemma_eq_after_key(kb, eb + vb, 0);
    assert(b.take(kb.len() as int) =~= kb);
    assert(b.skip(kb.len() as int + 1) =~= vb);
    if k.len() == 0 {
        assert(k =~= Seq::<char>::empty());
        assert(kb =~= Seq::<u8>::empty());
    }
    if v.len() == 0 {
        assert(v =~= Seq::<char>::empty());
        assert(vb =~= Seq::<u8>::empty());
    }
    if kb.len() == 0 {
        if k.len() > 0 {
            assert(vstd::utf8::encode_scalar(k[0] as u32).len() >= 1);
        }
    }
    if vb.len() == 0 {
        if v.len() > 0 {
            assert(vstd::utf8::encode_scalar(v[0] as u32).len() >= 1);
        }
    }
}

/// Position of the first `=` at or after `i`, or -1.
pub open spec fn eq_from(b: Seq<u8>, i: nat) -> int
    decreases b.len() - i,
{
    if i >= b.len() {
        -1
    } else if b[i as int] == 61 {
        i as int
    } else {
        eq_from(b, i + 1)
    }
}

proof fn lemma_eq_from(b: Seq<u8>, i: nat)
    ensures
        eq_from(b, i) == -1 || (i <= eq_from(b, i) < b.len() && b[eq_from(b, i)] == 61),
    decreases b.len() - i,
{
    if i < b.len() && b[i as int] != 61 {
        lemma_eq_from(b, i + 1);
    }
}

/// A `key=value` argument with a non-empty key and value (split at the
/// first `=`).
pub open spec fn kv_ok(s: Seq<char>) -> bool {
    let b = sbytes(s);
    let p = eq_from(b, 0);
    p > 0 && p + 1 < b.len()
}

/// `kv` is the key and value of the argument `s`.
pub open spec fn kv_of(s: Seq<char>, kv: (Seq<char>, Seq<char>)) -> bool {
    let b = sbytes(s);
    let p = eq_from(b, 0);
    sbytes(kv.0) == b.take(p) && sbytes(kv.1) == b.skip(p + 1)
}

/// The `-m` scan of `commit`: the message, if exactly one `-m <message>`
/// and nothing else follows from position `i`; `None` when rejected.
pub open spec fn commit_scan(a: Seq<Seq<char>>, i: int, msg: Option<Seq<char>>) -> Option<Option<Seq<char>>>
    decreases a.len() - i,
{
    if i >= a.len() || i < 0 {
        Some(msg)
    } else if a[i] == "-m"@ {
        if msg is Some || i + 1 >= a.len() {
            None
        } else {
            commit_scan(a, i + 2, Some(a[i + 1]))
        }
    } else {
        None
    }
}

/// The scan of `checkout` from position `i`: the force flag (`--force` or
/// `-f`, at most once) and the first other argument as the branch; a
/// second other argument is rejected.
pub open spec fn checkout_scan(a: Seq<Seq<char>>, i: int, force: bool, name: Option<Seq<char>>) -> Option<
    (bool, Option<Seq<char>>),
>
    decreases a.len() - i,
{
    if i >= a.len() || i < 0 {
        Some((force, name))
    } else if a[i] == "--force"@ || a[i] == "-f"@ {
        if force {
            None
        } else {
            checkout_scan(a, i + 1, true, name)
        }
    } else if name is None {
        checkout_scan(a, i + 1, force, Some(a[i]))
    } else {
        None
    }
}

/// The arguments denote the command `c`.
pub open spec fn denotes(a: Seq<Seq<char>>, c: CommandV) -> bool {
    let n = a.len();
    &&& n >= 1
    &&& if a[0] == "init"@ {
        n == 1 && c == CommandV::Init
    } else if a[0] == "node"@ {
        n >= 2 && if a[1] == "add"@ {
            n >= 3 && match c {
                CommandV::NodeAdd(id, md) => id == a[2] && md.len() == n - 3 && forall|i: int|
                    0 <= i < md.len() ==> kv_ok(a[i + 3]) && kv_of(a[i + 3], #[trigger] md[i]),
                _ => false,
            }
        } else if a[1] == "remove"@ {
            n == 3 && c == CommandV::NodeRemove(a[2])
        } else {
            false
        }
    } else if a[0] == "interface"@ || a[0] == "iface"@ {
        n >= 2 && if a[1] == "add"@ {
            n == 4 && c == CommandV::InterfaceAdd(a[2], a[3])
        } else if a[1] == "remove"@ {
            n == 4 && c == CommandV::InterfaceRemove(a[2], a[3])
        } else {
            false
        }
    } else if a[0] == "link"@ {
        n >= 2 && if a[1] == "add"@ {
            n == 4 && c == CommandV::LinkAdd(a[2], a[3])
        } else if a[1] == "remove"@ {
            n == 4 && c == CommandV::LinkRemove(a[2], a[3])
        } else {
            false
        }
    } else if a[0] == "commit"@ {
        match commit_scan(a, 1, None) {
            Some(Some(m)) => c == CommandV::Commit(m),
            _ => false,
        }
    } else if a[0] == "state"@ {
        n == 1 && c == CommandV::State
    } else if a[0] == "branch"@ {
        (n == 1 && c == CommandV::BranchList) || (n == 2 && c == CommandV::BranchCreate(a[1]))
    } else if a[0] == "checkout"@ {
        match checkout_scan(a, 1, false, None) {
            Some((force, Some(name))) => c == CommandV::Checkout(name, force),
            _ => false,
        }
    } else if a[0] == "diff"@ {
        n == 3 && c == CommandV::Diff(a[1], a[2])
    } else if a[0] == "merge"@ {
        n == 2 && c == CommandV::Merge(a[1])
    } else if a[0] == "path"@ {
        n == 3 && c == CommandV::Path(a[1], a[2])
    } else if a[0] == "verify"@ {
        n == 1 && c == CommandV::Verify
    } else if a[0] == "log"@ {
        n == 1 && c == CommandV::Log
    } else if a[0] == "inspect"@ {
        n == 2 && c == CommandV::Inspect(a[1])
    } else if a[0] == "apply"@ {
        n == 2 && c == CommandV::Apply(a[1])
    } else {
        false
    }
}

/// The arguments are accepted: `node add` takes any number of well-formed
/// `key=value` arguments; every other form is fixed.
pub open spec fn accepted(a: Seq<Seq<char>>) -> bool {
    let n = a.len();
    &&& n >= 1
    &&& if a[0] == "node"@ && n >= 3 && a[1] == "add"@ {
        forall|i: int| 3 <= i < n ==> kv_ok(#[trigger] a[i])
    } else {
        exists|c: CommandV| denotes(a, c)
    }
}

/// The views of the arguments.
pub open spec fn arg_views(a: Seq<String>) -> Seq<Seq<char>> {
    a.map_values(|s: String| s@)
}

/// A message, then the usage text after a blank line.
pub open spec fn with_usage(m: Seq<char>) -> Seq<char> {
    m + "\n\n"@ + USAGE@
}

/// The complaint about a missing argument.
pub open spec fn missing_arg(what: Seq<char>) -> Seq<char> {
    with_usage("missing argument for "@ + what)
}

/// The complaint about an argument after the last one a subcommand takes.
pub open spec fn unexpected_arg(extra: Seq<char>, sub: Seq<char>) -> Seq<char> {
    with_usage("unexpected argument "@ + debug_str_spec(extra) + " for subcommand "@ + debug_str_spec(sub))
}

/// The complaint about a malformed `key=value` argument.
pub open spec fn kv_error(s: Seq<char>) -> Seq<char> {
    if eq_from(sbytes(s), 0) == -1 {
        with_usage("metadata must be key=value (got "@ + debug_str_spec(s) + ")"@)
    } else {
        with_usage("metadata key and value must be non-empty (got "@ + debug_str_spec(s) + ")"@)
    }
}

/// Position of the first malformed `key=value` argument at or after `i`,
/// or -1.
pub open spec fn first_bad_kv(a: Seq<Seq<char>>, i: int) -> int
    decreases a.len() - i,
{
    if i >= a.len() || i < 0 {
        -1
    } else if !kv_ok(a[i]) {
        i
    } else {
        first_bad_kv(a, i + 1)
    }
}

/// The complaint of the `-m` scan of `commit` from position `i`.
pub open spec fn commit_error(a: Seq<Seq<char>>, i: int, msg: Option<Seq<char>>) -> Seq<char>
    decreases a.len() - i,
{
    if i >= a.len() || i < 0 {
        with_usage("commit requires -m <message>"@)
    } else if a[i] == "-m"@ {
        if msg is Some {
            with_usage("-m given twice"@)
        } else if i + 1 >= a.len() {
            missing_arg("commit -m <message>"@)
        } else {
            commit_error(a, i + 2, Some(a[i + 1]))
        }
    } else {
        with_usage("unknown commit argument "@ + debug_str_spec(a[i]))
    }
}

/// The complaint of the `checkout` scan from position `i`.
pub open spec fn checkout_error(a: Seq<Seq<char>>, i: int, force: bool, name: Option<Seq<char>>) -> Seq<char>
    decreases a.len() - i,
{
    if i >= a.len() || i < 0 {
        missing_arg("checkout <branch>"@)
    } else if a[i] == "--force"@ || a[i] == "-f"@ {
        if force {
            with_usage("--force given twice"@)
        } else {
            checkout_error(a, i + 1, true, name)
        }
    } else if name is None {
        checkout_error(a, i + 1, force, Some(a[i]))
    } else {
        with_usage("unexpected argument "@ + debug_str_spec(a[i]) + " for checkout"@)
    }
}

/// The complaint about rejected arguments: the first rule they break.
pub open spec fn parse_error(a: Seq<Seq<char>>) -> Seq<char> {
    let n = a.len();
    if n == 0 {
        with_usage("missing subcommand"@)
    } else if a[0] == "init"@ || a[0] == "state"@ || a[0] == "verify"@ || a[0] == "log"@ {
        unexpected_arg(a[1], a[0])
    } else if a[0] == "node"@ {
        if n < 2 {
            missing_arg("node <add|remove>"@)
        } else if a[1] == "add"@ {
            if n < 3 {
                missing_arg("node add <id>"@)
            } else {
                kv_error(a[first_bad_kv(a, 3)])
            }
        } else if a[1] == "remove"@ {
            if n < 3 {
                missing_arg("node remove <id>"@)
            } else {
                unexpected_arg(a[3], "node remove"@)
            }
        } else {
            with_usage("unknown node action "@ + debug_str_spec(a[1]))
        }
    } else if a[0] == "interface"@ || a[0] == "iface"@ || a[0] == "link"@ {
        let link = a[0] == "link"@;
        if n < 2 {
            missing_arg(if link { "link <add|remove>"@ } else { "interface <add|remove>"@ })
        } else if a[1] != "add"@ && a[1] != "remove"@ {
            with_usage(
                (if link { "unknown link action "@ } else { "unknown interface action "@ }) + debug_str_spec(
                    a[1],
                ),
            )
        } else if n < 4 {
            missing_arg(
                if link {
                    if a[1] == "add"@ {
                        "link add <node/iface> <node/iface>"@
                    } else {
                        "link remove <node/iface> <node/iface>"@
                    }
                } else if a[1] == "add"@ {
                    "interface add <node> <name>"@
                } else {
                    "interface remove <node> <name>"@
                },
            )
        } else {
            unexpected_arg(
                a[4],
                if link {
                    if a[1] == "add"@ {
                        "link add"@
                    } else {
                        "link remove"@
                    }
                } else if a[1] == "add"@ {
                    "interface add"@
                } else {
                    "interface remove"@
                },
            )
        }
    } else if a[0] == "commit"@ {
        commit_error(a, 1, None)
    } else if a[0] == "branch"@ {
        unexpected_arg(a[2], "branch"@)
    } else if a[0] == "checkout"@ {
        checkout_error(a, 1, false, None)
    } else if a[0] == "diff"@ || a[0] == "path"@ {
        if n < 3 {
            missing_arg(if a[0] == "diff"@ { "diff <from-ref> <to-ref>"@ } else { "path <from-node> <to-node>"@ })
        } else {
            unexpected_arg(a[3], a[0])
        }
    } else if a[0] == "merge"@ || a[0] == "inspect"@ || a[0] == "apply"@ {
        if n < 2 {
            missing_arg(
                if a[0] == "merge"@ {
                    "merge <branch>"@
                } else if a[0] == "inspect"@ {
                    "inspect <branch-or-commit-id>"@
                } else {
                    "apply <branch-or-commit-id>"@
                },
            )
        } else {
            unexpected_arg(a[2], a[0])
        }
    } else {
        with_usage("unknown subcommand "@ + debug_str_spec(a[0]))
    }
}

/// `prefix`, the usage text after a blank line.
fn usage_error(prefix: String) -> (r: String)
    ensures
        r@ == with_usage(prefix@),
{
    let mut s = prefix;
    push_str(&mut s, "\n\n");
    push_str(&mut s, USAGE);
    s
}

/// `a`, then `x` quoted, then `b`.
fn quoted(a: &str, x: &str, b: &str) -> (r: String)
    ensures
        r@ == a@ + debug_str_spec(x@) + b@,
{
    let mut s = owned(a);
    let q = debug_str(x);
    push_str(&mut s, q.as_str());
    push_str(&mut s, b);
    s
}

fn missing(what: &str) -> (r: String)
    ensures
        r@ == missing_arg(what@),
{
    let mut s = owned("missing argument for ");
    push_str(&mut s, what);
    usage_error(s)
}

fn unexpected(extra: &str, sub: &str) -> (r: String)
    ensures
        r@ == unexpected_arg(extra@, sub@),
{
    let mut s = quoted("unexpected argument ", extra, " for subcommand ");
    let q = debug_str(sub);
    push_str(&mut s, q.as_str());
    usage_error(s)
}

/// Split a `key=value` argument at its first `=`.
fn parse_kv(arg: &str) -> (r: Result<(String, String), String>)
    ensures
        r is Ok <==> kv_ok(arg@),
        r matches Ok(kv) ==> kv_of(arg@, (kv.0@, kv.1@)),
        r matches Err(e) ==> e@ == kv_error(arg@),
{
    let b = arg.as_bytes();
    let mut i: usize = 0;
    while i < b.len() && b[i] != 61
        invariant
            b@ == sbytes(arg@),
            i <= b@.len(),
            eq_from(b@, 0) == eq_from(b@, i as nat),
        decreases b.len() - i,
    {
        i = i + 1;
    }
    proof {
        lemma_eq_from(b@, 0);
    }
    if i == b.len() {
        return Err(usage_error(quoted("metadata must be key=value (got ", arg, ")")));
    }
    if i == 0 || i + 1 == b.len() {
        return Err(usage_error(quoted("metadata key and value must be non-empty (got ", arg, ")")));
    }
    let (k, v) = split_around(arg, i);
    Ok((owned(k), owned(v)))
}

/// The letters that tell the command words apart.
proof fn lemma_words()
    ensures
        "init"@.len() == 4,
        "init"@[0] == 'i',
        "node"@.len() == 4,
        "node"@[0] == 'n',
        "add"@.len() == 3,
        "add"@[0] == 'a',
        "remove"@.len() == 6,
        "remove"@[0] == 'r',
        "interface"@.len() == 9,
        "interface"@[0] == 'i',
        "iface"@.len() == 5,
        "iface"@[0] == 'i',
        "link"@.len() == 4,
        "link"@[0] == 'l',
        "commit"@.len() == 6,
        "commit"@[0] == 'c',
        "state"@.len() == 5,
        "state"@[0] == 's',
        "branch"@.len() == 6,
        "branch"@[0] == 'b',
        "checkout"@.len() == 8,
        "checkout"@[0] == 'c',
        "diff"@.len() == 4,
        "diff"@[0] == 'd',
        "merge"@.len() == 5,
        "merge"@[0] == 'm',
        "path"@.len() == 4,
        "path"@[0] == 'p',
        "verify"@.len() == 6,
        "verify"@[0] == 'v',
        "log"@.len() == 3,
        "log"@[0] == 'l',
        "inspect"@.len() == 7,
        "inspect"@[0] == 'i',
        "apply"@.len() == 5,
        "apply"@[0] == 'a',
        "-m"@.len() == 2,
        "-m"@[0] == '-',
        "--force"@.len() == 7,
        "--force"@[0] == '-',
        "-f"@.len() == 2,
        "-f"@[0] == '-',
        "-m"@[1] == 'm',
        "-f"@[1] == 'f',
        "--force"@[1] == '-',
        ""@ == Seq::<char>::empty(),
{
    reveal_strlit("");
    reveal_strlit("init");
    reveal_strlit("node");
    reveal_strlit("add");
    reveal_strlit("remove");
    reveal_strlit("interface");
    reveal_strlit("iface");
    reveal_strlit("link");
    reveal_strlit("commit");
    reveal_strlit("state");
    reveal_strlit("branch");
    reveal_strlit("checkout");
    reveal_strlit("diff");
    reveal_strlit("merge");
    reveal_strlit("path");
    reveal_strlit("verify");
    reveal_strlit("log");
    reveal_strlit("inspect");
    reveal_strlit("apply");
    reveal_strlit("-m");
    reveal_strlit("--force");
    reveal_strlit("-f");
}

/// Parse raw arguments (without the program name).
pub fn parse(args: &[String]) -> (r: Result<Command, String>)
    ensures
        r is Ok <==> accepted(arg_views(args@)),
        r matches Ok(c) ==> denotes(arg_views(args@), c@),
        r matches Err(e) ==> e@ == parse_error(arg_views(args@)),
{
    let ghost a = arg_views(args@);
    let n = args.len();
    proof {
        lemma_words();
    }
    if n == 0 {
        return Err(usage_error(owned("missing subcommand")));
    }
    let sub = args[0].as_str();
    proof {
        assert(a[0] == sub@);
    }
    if str_eq(sub, "init") || str_eq(sub, "state") || str_eq(sub, "verify") || str_eq(sub, "log") {
        if n != 1 {
            return Err(unexpected(args[1].as_str(), sub));
        }
        let c = if str_eq(sub, "init") {
            Command::Init
        } else if str_eq(sub, "state") {
            Command::State
        } else if str_eq(sub, "verify") {
            Command::Verify
        } else {
            Command::Log
        };
        proof {
            assert(denotes(a, c@));
        }
        return Ok(c);
    }
    if str_eq(sub, "node") {
        if n < 2 {
            return Err(missing("node <add|remove>"));
        }
        let action = args[1].as_str();
        proof {
            assert(a[1] == action@);
        }
        if str_eq(action, "add") {
            if n < 3 {
                return Err(missing("node add <id>"));
            }
            let id = args[2].clone();
            let mut metadata: Vec<(String, String)> = Vec::new();
            let mut i: usize = 3;
            while i < n
                invariant
                    n == args@.len(),
                    a == arg_views(args@),
                    a[0] == "node"@,
                    a[1] == "add"@,
                    3 <= i <= n,
                    metadata@.len() == i - 3,
                    forall|j: int| 3 <= j < i ==> kv_ok(#[trigger] a[j]),
                    forall|j: int|
                        0 <= j < metadata@.len() ==> kv_of(a[j + 3], #[trigger] kv_views(metadata@)[j]),
                    first_bad_kv(a, 3) == first_bad_kv(a, i as int),
                decreases n - i,
            {
                let kv = match parse_kv(args[i].as_str()) {
                    Ok(kv) => kv,
                    Err(e) => {
                        proof {
                            assert(a[i as int] == args@[i as int]@);
                            assert(!kv_ok(a[i as int]));
                            assert(first_bad_kv(a, i as int) == i);
                            lemma_words();
                        }
                        return Err(e);
                    },
                };
                let ghost before = metadata@;
                metadata.push(kv);
                proof {
                    assert(a[i as int] == args@[i as int]@);
                    assert(kv_views(metadata@) =~= kv_views(before).push((kv.0@, kv.1@)));
                    assert(first_bad_kv(a, i as int) == first_bad_kv(a, i + 1));
                }
                i = i + 1;
            }
            let c = Command::NodeAdd { id, metadata };
            proof {
                assert(a[2] == args@[2]@);
                assert(denotes(a, c@));
            }
            return Ok(c);
        } else if str_eq(action, "remove") {
            if n < 3 {
                return Err(missing("node remove <id>"));
            }
            if n > 3 {
                return Err(unexpected(args[3].as_str(), "node remove"));
            }
            let c = Command::NodeRemove { id: args[2].clone() };
            proof {
                assert(denotes(a, c@));
            }
            return Ok(c);
        } else {
            return Err(usage_error(quoted("unknown node action ", action, "")));
        }
    }
    if str_eq(sub, "interface") || str_eq(sub, "iface") || str_eq(sub, "link") {
        let is_link = str_eq(sub, "link");
        if n < 2 {
            return Err(missing(if is_link { "link <add|remove>" } else { "interface <add|remove>" }));
        }
        let action = args[1].as_str();
        proof {
            assert(a[1] == action@);
        }
        let add = str_eq(action, "add");
        let remove = str_eq(action, "remove");
        if !add && !remove {
            let what = if is_link {
                "unknown link action "
            } else {
                "unknown interface action "
            };
            return Err(usage_error(quoted(what, action, "")));
        }
        if n < 4 {
            let what = if is_link {
                if add {
                    "link add <node/iface> <node/iface>"
                } else {
                    "link remove <node/iface> <node/iface>"
                }
            } else {
                if add {
                    "interface add <node> <name>"
                } else {
                    "interface remove <node> <name>"
                }
            };
            return Err(missing(what));
        }
        if n > 4 {
            let what = if is_link {
                if add {
                    "link add"
                } else {
                    "link remove"
                }
            } else {
                if add {
                    "interface add"
                } else {
                    "interface remove"
                }
            };
            return Err(unexpected(args[4].as_str(), what));
        }
        let x = args[2].clone();
        let y = args[3].clone();
        let c = if is_link {
            if add {
                Command::LinkAdd { a: x, b: y }
            } else {
                Command::LinkRemove { a: x, b: y }
            }
        } else {
            if add {
                Command::InterfaceAdd { node: x, name: y }
            } else {
                Command::InterfaceRemove { node: x, name: y }
            }
        };
        proof {
            assert(denotes(a, c@));
        }
        return Ok(c);
    }
    if str_eq(sub, "commit") {
        let mut message: Option<String> = None;
        let mut i: usize = 1;
        while i < n
            invariant
                n == args@.len(),
                a == arg_views(args@),
                a[0] == "commit"@,
                1 <= i,
                commit_scan(a, 1, None) == commit_scan(a, i as int, match message {
                    Some(m) => Some(m@),
                    None => None,
                }),
                commit_error(a, 1, None) == commit_error(a, i as int, match message {
                    Some(m) => Some(m@),
                    None => None,
                }),
            decreases n - i,
        {
            let arg = args[i].as_str();
            proof {
                lemma_words();
                assert(a[i as int] == arg@);
            }
            if str_eq(arg, "-m") {
                if message.is_some() {
                    return Err(usage_error(owned("-m given twice")));
                }
                if i + 1 >= n {
                    return Err(missing("commit -m <message>"));
                }
                proof {
                    assert(a[i + 1] == args@[i + 1]@);
                }
                message = Some(args[i + 1].clone());
                i = i + 2;
            } else {
                return Err(usage_error(quoted("unknown commit argument ", arg, "")));
            }
        }
        match message {
            Some(m) => {
                let c = Command::Commit { message: m };
                proof {
                    assert(denotes(a, c@));
                }
                return Ok(c);
            },
            None => {
                return Err(usage_error(owned("commit requires -m <message>")));
            },
        }
    }
    if str_eq(sub, "branch") {
        if n == 1 {
            let c = Command::BranchList;
            proof {
                assert(denotes(a, c@));
            }
            return Ok(c);
        }
        if n > 2 {
            return Err(unexpected(args[2].as_str(), "branch"));
        }
        let c = Command::BranchCreate { name: args[1].clone() };
        proof {
            assert(denotes(a, c@));
        }
        return Ok(c);
    }
    if str_eq(sub, "checkout") {
        let mut force = false;
        let mut name: Option<String> = None;
        let mut i: usize = 1;
        while i < n
            invariant
                n == args@.len(),
                a == arg_views(args@),
                a[0] == "checkout"@,
                1 <= i <= n,
                checkout_scan(a, 1, false, None) == checkout_scan(a, i as int, force, match name {
                    Some(m) => Some(m@),
                    None => None,
                }),
                checkout_error(a, 1, false, None) == checkout_error(a, i as int, force, match name {
                    Some(m) => Some(m@),
                    None => None,
                }),
            decreases n - i,
        {
            let arg = args[i].as_str();
            proof {
                lemma_words();
                assert(a[i as int] == arg@);
            }
            if str_eq(arg, "--force") || str_eq(arg, "-f") {
                if force {
                    return Err(usage_error(owned("--force given twice")));
                }
                force = true;
            } else if name.is_none() {
                name = Some(args[i].clone());
            } else {
                return Err(usage_error(quoted("unexpected argument ", arg, " for checkout")));
            }
            i = i + 1;
        }
        match name {
            Some(nm) => {
                let c = Command::Checkout { name: nm, force };
                proof {
                    assert(denotes(a, c@));
                }
                return Ok(c);
            },
            None => {
                return Err(missing("checkout <branch>"));
            },
        }
    }
    if str_eq(sub, "diff") || str_eq(sub, "path") {
        let is_diff = str_eq(sub, "diff");
        if n < 3 {
            return Err(missing(if is_diff { "diff <from-ref> <to-ref>" } else { "path <from-node> <to-node>" }));
        }
        if n > 3 {
            return Err(unexpected(args[3].as_str(), sub));
        }
        let from = args[1].clone();
        let to = args[2].clone();
        let c = if is_diff {
            Command::Diff { from, to }
        } else {
            Command::Path { from, to }
        };
        proof {
            assert(denotes(a, c@));
        }
        return Ok(c);
    }
    if str_eq(sub, "merge") || str_eq(sub, "inspect") || str_eq(sub, "apply") {
        if n < 2 {
            let what = if str_eq(sub, "merge") {
                "merge <branch>"
            } else if str_eq(sub, "inspect") {
                "inspect <branch-or-commit-id>"
            } else {
                "apply <branch-or-commit-id>"
            };
            return Err(missing(what));
        }
        if n > 2 {
            return Err(unexpected(args[2].as_str(), sub));
        }
        let x = args[1].clone();
        let c = if str_eq(sub, "merge") {
            Command::Merge { branch: x }
        } else if str_eq(sub, "inspect") {
            Command::Inspect { name: x }
        } else {
            Command::Apply { name: x }
        };
        proof {
            assert(denotes(a, c@));
        }
        return Ok(c);
    }
    Err(usage_error(quoted("unknown subcommand ", sub, "")))
}

} // verus!
