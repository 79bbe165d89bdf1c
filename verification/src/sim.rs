//! Simulation-only execution planning and the execution backend contract.
//!
//! `plan` derives the explicit, dependency-safe sequence of actions that
//! would realize a target network from a current one. It never touches a
//! host: it produces an inspectable plan and nothing else.
use vstd::prelude::*;
use crate::text::{owned, copy_string, joined, lemma_joined_push};
use crate::model::{Network, NetworkV, Endpoint, EndpointV, LinkKeyV, push_str, pair_views, ep_text};
use crate::diff::{iface_set, sorted_eps, str_views, key_views, missing_nodes, missing_interfaces, missing_links};
use crate::diff::{same_topology, lemma_enum_empty, lemma_sorted_enum_exists_for_ifaces, lemma_ep_strict, ep_order_fn};
use crate::canonical::{lemma_str_strict, lemma_key_strict, str_order_fn, key_order_fn};
use crate::seqs::lemma_sorted_enum_exists;
use crate::canonical::{sorted_strs, sorted_keys};
use crate::merge::{removed_ifaces, removed_interfaces};
use crate::describe::{debug_str, debug_str_spec, decimal, decimal_text};

verus! {

/// One concrete action of an execution plan.
#[derive(Debug, Clone, PartialEq, Eq)]
pub enum Action {
    CreateNode { id: String },
    RemoveNode { id: String },
    CreateInterface { node: String, name: String },
    RemoveInterface { node: String, name: String },
    CreateLink { a: Endpoint, b: Endpoint },
    RemoveLink { a: Endpoint, b: Endpoint },
}

/// The view of an action.
pub enum ActionV {
    CreateNode(Seq<char>),
    RemoveNode(Seq<char>),
    CreateIface(EndpointV),
    RemoveIface(EndpointV),
    CreateLink(LinkKeyV),
    RemoveLink(LinkKeyV),
}

impl View for Action {
    type V = ActionV;

    open spec fn view(&self) -> ActionV {
        match self {
            Action::CreateNode { id } => ActionV::CreateNode(id@),
            Action::RemoveNode { id } => ActionV::RemoveNode(id@),
            Action::CreateInterface { node, name } => ActionV::CreateIface((node@, name@)),
            Action::RemoveInterface { node, name } => ActionV::RemoveIface((node@, name@)),
            Action::CreateLink { a, b } => ActionV::CreateLink((a@, b@)),
            Action::RemoveLink { a, b } => ActionV::RemoveLink((a@, b@)),
        }
    }
}

/// The text of an action.
pub open spec fn action_text(a: ActionV) -> Seq<char> {
    match a {
        ActionV::CreateNode(id) => "create node "@ + id,
        ActionV::RemoveNode(id) => "remove node "@ + id,
        ActionV::CreateIface(e) => "create interface "@ + e.0 + "/"@ + e.1,
        ActionV::RemoveIface(e) => "remove interface "@ + e.0 + "/"@ + e.1,
        ActionV::CreateLink(k) => "create link "@ + ep_text(k.0) + " <-> "@ + ep_text(k.1),
        ActionV::RemoveLink(k) => "remove link "@ + ep_text(k.0) + " <-> "@ + ep_text(k.1),
    }
}

impl Action {
    /// A copy of the action.
    pub fn copy(&self) -> (r: Action)
        ensures
            r@ == self@,
    {
        match self {
            Action::CreateNode { id } => Action::CreateNode { id: id.clone() },
            Action::RemoveNode { id } => Action::RemoveNode { id: id.clone() },
            Action::CreateInterface { node, name } => Action::CreateInterface {
                node: node.clone(),
                name: name.clone(),
            },
            Action::RemoveInterface { node, name } => Action::RemoveInterface {
                node: node.clone(),
                name: name.clone(),
            },
            Action::CreateLink { a, b } => Action::CreateLink { a: a.dup_endpoint(), b: b.dup_endpoint() },
            Action::RemoveLink { a, b } => Action::RemoveLink { a: a.dup_endpoint(), b: b.dup_endpoint() },
        }
    }

    /// The human-readable text of the action.
    pub fn text(&self) -> (r: String)
        ensures
            r@ == action_text(self@),
    {
        match self {
            Action::CreateNode { id } => {
                let mut s = owned("create node ");
                push_str(&mut s, id.as_str());
                s
            },
            Action::RemoveNode { id } => {
                let mut s = owned("remove node ");
                push_str(&mut s, id.as_str());
                s
            },
            Action::CreateInterface { node, name } => {
                let mut s = owned("create interface ");
                push_str(&mut s, node.as_str());
                push_str(&mut s, "/");
                push_str(&mut s, name.as_str());
                s
            },
            Action::RemoveInterface { node, name } => {
                let mut s = owned("remove interface ");
                push_str(&mut s, node.as_str());
                push_str(&mut s, "/");
                push_str(&mut s, name.as_str());
                s
            },
            Action::CreateLink { a, b } => {
                let mut s = owned("create link ");
                let at = a.text();
                push_str(&mut s, at.as_str());
                push_str(&mut s, " <-> ");
                let bt = b.text();
                push_str(&mut s, bt.as_str());
                s
            },
            Action::RemoveLink { a, b } => {
                let mut s = owned("remove link ");
                let at = a.text();
                push_str(&mut s, at.as_str());
                push_str(&mut s, " <-> ");
                let bt = b.text();
                push_str(&mut s, bt.as_str());
                s
            },
        }
    }
}

/// The views of a list of actions.
pub open spec fn action_views(v: Seq<Action>) -> Seq<ActionV> {
    v.map_values(|a: Action| a@)
}

/// The actions that take `c` to `t`: removals first (links, then
/// interfaces of surviving nodes, then nodes), then additions (nodes,
/// interfaces, links), each group ascending.
pub open spec fn plan_actions(c: NetworkV, t: NetworkV) -> Seq<ActionV> {
    sorted_keys(c.links.dom().difference(t.links.dom())).map_values(|k: LinkKeyV| ActionV::RemoveLink(k))
        + sorted_eps(removed_ifaces(c, t)).map_values(|e: EndpointV| ActionV::RemoveIface(e))
        + sorted_strs(c.nodes.dom().difference(t.nodes.dom())).map_values(
        |k: Seq<char>| ActionV::RemoveNode(k),
    ) + sorted_strs(t.nodes.dom().difference(c.nodes.dom())).map_values(
        |k: Seq<char>| ActionV::CreateNode(k),
    ) + sorted_eps(iface_set(t).difference(iface_set(c))).map_values(
        |e: EndpointV| ActionV::CreateIface(e),
    ) + sorted_keys(t.links.dom().difference(c.links.dom())).map_values(
        |k: LinkKeyV| ActionV::CreateLink(k),
    )
}

/// The plan from one network to another is empty exactly when the two
/// have the same topology, that is when their diff is empty.
pub proof fn law_plan_empty_iff_no_change(current: &Network, target: &Network)
    requires
        current.wf(),
        target.wf(),
    ensures
        plan_actions(current@, target@).len() == 0 <==> same_topology(current@, target@),
{
    let c = current@;
    let t = target@;
    current.lemma_metadata_finite();
    target.lemma_metadata_finite();
    lemma_sorted_enum_exists_for_ifaces(current);
    lemma_sorted_enum_exists_for_ifaces(target);
    lemma_str_strict();
    lemma_key_strict();
    lemma_ep_strict();
    let s1 = t.nodes.dom().difference(c.nodes.dom());
    let s2 = c.nodes.dom().difference(t.nodes.dom());
    let s3 = iface_set(t).difference(iface_set(c));
    let s4 = removed_ifaces(c, t);
    let s5 = t.links.dom().difference(c.links.dom());
    let s6 = c.links.dom().difference(t.links.dom());
    vstd::set_lib::lemma_set_subset_finite(t.nodes.dom(), s1);
    vstd::set_lib::lemma_set_subset_finite(c.nodes.dom(), s2);
    vstd::set_lib::lemma_set_subset_finite(iface_set(t), s3);
    vstd::set_lib::lemma_set_subset_finite(iface_set(c), s4);
    vstd::set_lib::lemma_set_subset_finite(t.links.dom(), s5);
    vstd::set_lib::lemma_set_subset_finite(c.links.dom(), s6);
    lemma_sorted_enum_exists(s1, str_order_fn());
    lemma_sorted_enum_exists(s2, str_order_fn());
    lemma_sorted_enum_exists(s3, ep_order_fn());
    lemma_sorted_enum_exists(s4, ep_order_fn());
    lemma_sorted_enum_exists(s5, key_order_fn());
    lemma_sorted_enum_exists(s6, key_order_fn());
    lemma_enum_empty(sorted_strs(s1), s1);
    lemma_enum_empty(sorted_strs(s2), s2);
    lemma_enum_empty(sorted_eps(s3), s3);
    lemma_enum_empty(sorted_eps(s4), s4);
    lemma_enum_empty(sorted_keys(s5), s5);
    lemma_enum_empty(sorted_keys(s6), s6);
    assert(plan_actions(c, t).len() == sorted_keys(s6).len() + sorted_eps(s4).len() + sorted_strs(s2).len()
        + sorted_strs(s1).len() + sorted_eps(s3).len() + sorted_keys(s5).len());
    if same_topology(c, t) {
        assert(s1 =~= Set::<Seq<char>>::empty());
        assert(s2 =~= Set::<Seq<char>>::empty());
        assert(s3 =~= Set::<EndpointV>::empty());
        assert(s4 =~= Set::<EndpointV>::empty());
        assert(s5 =~= Set::<LinkKeyV>::empty());
        assert(s6 =~= Set::<LinkKeyV>::empty());
    }
    if plan_actions(c, t).len() == 0 {
        assert forall|k: Seq<char>| c.nodes.dom().contains(k) <==> t.nodes.dom().contains(k) by {
            if c.nodes.dom().contains(k) && !t.nodes.dom().contains(k) {
                assert(s2.contains(k));
            }
            if t.nodes.dom().contains(k) && !c.nodes.dom().contains(k) {
                assert(s1.contains(k));
            }
        }
        assert(c.nodes.dom() =~= t.nodes.dom());
        assert forall|e: EndpointV| iface_set(c).contains(e) <==> iface_set(t).contains(e) by {
            if iface_set(c).contains(e) && !iface_set(t).contains(e) {
                if t.nodes.dom().contains(e.0) {
                    assert(s4.contains(e));
                } else {
                    assert(s2.contains(e.0));
                }
            }
            if iface_set(t).contains(e) && !iface_set(c).contains(e) {
                assert(s3.contains(e));
            }
        }
        assert(iface_set(c) =~= iface_set(t));
        assert forall|k: LinkKeyV| c.links.dom().contains(k) <==> t.links.dom().contains(k) by {
            if c.links.dom().contains(k) && !t.links.dom().contains(k) {
                assert(s6.contains(k));
            }
            if t.links.dom().contains(k) && !c.links.dom().contains(k) {
                assert(s5.contains(k));
            }
        }
        assert(c.links.dom() =~= t.links.dom());
    }
}

/// An inspectable, simulation-only execution plan.
#[derive(Debug, Clone, PartialEq, Eq)]
pub struct ExecutionPlan {
    /// Actions in dependency-safe order.
    pub actions: Vec<Action>,
}

impl ExecutionPlan {
    /// No action at all.
    pub fn is_empty(&self) -> (r: bool)
        ensures
            r == (self.actions@.len() == 0),
    {
        self.actions.len() == 0
    }

    /// The numbered, human-readable plan.
    pub fn text(&self) -> (r: String)
        ensures
            self.actions@.len() == 0 ==> r@ == "Execution plan: (no changes)"@,
            self.actions@.len() > 0 ==> r@ == "Execution plan:\n"@ + numbered_actions(
                action_views(self.actions@),
            ) + "(simulation only \u{2014} no action is taken against any system)\n"@,
    {
        if self.actions.len() == 0 {
            return owned("Execution plan: (no changes)");
        }
        let mut s = owned("Execution plan:\n");
        let ghost head = s@;
        let ghost acts = action_views(self.actions@);
        let mut i: usize = 0;
        while i < self.actions.len()
            invariant
                i <= self.actions@.len(),
                acts == action_views(self.actions@),
                s@ == head + numbered_actions(acts.take(i as int)),
            decreases self.actions@.len() - i,
        {
            proof {
                assert(acts.take(i + 1).drop_last() =~= acts.take(i as int));
                assert(acts.take(i + 1).last() == self.actions@[i as int]@);
                assert(acts.take(i + 1).len() == i + 1);
            }
            push_str(&mut s, "  ");
            let n = decimal_text(i + 1);
            push_str(&mut s, n.as_str());
            push_str(&mut s, ". ");
            let t = self.actions[i].text();
            push_str(&mut s, t.as_str());
            push_str(&mut s, "\n");
            i = i + 1;
        }
        proof {
            assert(acts.take(self.actions@.len() as int) =~= acts);
        }
        push_str(&mut s, "(simulation only \u{2014} no action is taken against any system)\n");
        s
    }
}

/// Numbered lines, one per action: `  k. action`.
pub open spec fn numbered_actions(acts: Seq<ActionV>) -> Seq<char>
    decreases acts.len(),
{
    if acts.len() == 0 {
        Seq::empty()
    } else {
        numbered_actions(acts.drop_last()) + "  "@ + decimal(acts.len()) + ". "@ + action_text(acts.last())
            + "\n"@
    }
}

fn push_link_actions(out: &mut Vec<Action>, ks: Vec<(Endpoint, Endpoint)>, create: bool)
    ensures
        action_views(final(out)@) == action_views(old(out)@) + key_views(ks@).map_values(
            |k: LinkKeyV| if create {
                ActionV::CreateLink(k)
            } else {
                ActionV::RemoveLink(k)
            },
        ),
{
    let ghost start = action_views(out@);
    let ghost seg = key_views(ks@).map_values(
        |k: LinkKeyV| if create {
            ActionV::CreateLink(k)
        } else {
            ActionV::RemoveLink(k)
        },
    );
    let mut i: usize = 0;
    while i < ks.len()
        invariant
            i <= ks@.len(),
            seg == key_views(ks@).map_values(
                |k: LinkKeyV| if create {
                    ActionV::CreateLink(k)
                } else {
                    ActionV::RemoveLink(k)
                },
            ),
            action_views(out@) == start + seg.take(i as int),
        decreases ks@.len() - i,
    {
        let ghost before = out@;
        let a = ks[i].0.dup_endpoint();
        let b = ks[i].1.dup_endpoint();
        if create {
            out.push(Action::CreateLink { a, b });
        } else {
            out.push(Action::RemoveLink { a, b });
        }
        proof {
            assert(seg.take(i + 1) =~= seg.take(i as int).push(seg[i as int]));
            assert(action_views(out@) =~= action_views(before).push(seg[i as int]));
        }
        i = i + 1;
    }
    proof {
        assert(seg.take(ks@.len() as int) =~= seg);
    }
}

fn push_iface_actions(out: &mut Vec<Action>, es: Vec<(String, String)>, create: bool)
    ensures
        action_views(final(out)@) == action_views(old(out)@) + pair_views(es@).map_values(
            |e: EndpointV| if create {
                ActionV::CreateIface(e)
            } else {
                ActionV::RemoveIface(e)
            },
        ),
{
    let ghost start = action_views(out@);
    let ghost seg = pair_views(es@).map_values(
        |e: EndpointV| if create {
            ActionV::CreateIface(e)
        } else {
            ActionV::RemoveIface(e)
        },
    );
    let mut i: usize = 0;
    while i < es.len()
        invariant
            i <= es@.len(),
            seg == pair_views(es@).map_values(
                |e: EndpointV| if create {
                    ActionV::CreateIface(e)
                } else {
                    ActionV::RemoveIface(e)
                },
            ),
            action_views(out@) == start + seg.take(i as int),
        decreases es@.len() - i,
    {
        let ghost before = out@;
        let node = es[i].0.clone();
        let name = es[i].1.clone();
        if create {
            out.push(Action::CreateInterface { node, name });
        } else {
            out.push(Action::RemoveInterface { node, name });
        }
        proof {
            assert(seg.take(i + 1) =~= seg.take(i as int).push(seg[i as int]));
            assert(action_views(out@) =~= action_views(before).push(seg[i as int]));
        }
        i = i + 1;
    }
    proof {
        assert(seg.take(es@.len() as int) =~= seg);
    }
}

fn push_node_actions(out: &mut Vec<Action>, ids: Vec<String>, create: bool)
    ensures
        action_views(final(out)@) == action_views(old(out)@) + str_views(ids@).map_values(
            |k: Seq<char>| if create {
                ActionV::CreateNode(k)
            } else {
                ActionV::RemoveNode(k)
            },
        ),
{
    let ghost start = action_views(out@);
    let ghost seg = str_views(ids@).map_values(
        |k: Seq<char>| if create {
            ActionV::CreateNode(k)
        } else {
            ActionV::RemoveNode(k)
        },
    );
    let mut i: usize = 0;
    while i < ids.len()
        invariant
            i <= ids@.len(),
            seg == str_views(ids@).map_values(
                |k: Seq<char>| if create {
                    ActionV::CreateNode(k)
                } else {
                    ActionV::RemoveNode(k)
                },
            ),
            action_views(out@) == start + seg.take(i as int),
        decreases ids@.len() - i,
    {
        let ghost before = out@;
        let id = ids[i].clone();
        if create {
            out.push(Action::CreateNode { id });
        } else {
            out.push(Action::RemoveNode { id });
        }
        proof {
            assert(seg.take(i + 1) =~= seg.take(i as int).push(seg[i as int]));
            assert(action_views(out@) =~= action_views(before).push(seg[i as int]));
        }
        i = i + 1;
    }
    proof {
        assert(seg.take(ids@.len() as int) =~= seg);
    }
}

/// Derive the execution plan from `current` to `target`. Removing a node
/// takes its interfaces with it, so interface removals are listed only for
/// nodes that stay.
pub fn plan(current: &Network, target: &Network) -> (r: ExecutionPlan)
    requires
        current.wf(),
        target.wf(),
    ensures
        action_views(r.actions@) == plan_actions(current@, target@),
{
    let mut actions: Vec<Action> = Vec::new();
    let ghost v0 = action_views(actions@);
    push_link_actions(&mut actions, missing_links(current, target), false);
    push_iface_actions(&mut actions, removed_interfaces(current, target), false);
    push_node_actions(&mut actions, missing_nodes(current, target), false);
    push_node_actions(&mut actions, missing_nodes(target, current), true);
    push_iface_actions(&mut actions, missing_interfaces(target, current), true);
    push_link_actions(&mut actions, missing_links(target, current), true);
    proof {
        assert(v0 =~= Seq::<ActionV>::empty());
        assert(action_views(actions@) =~= plan_actions(current@, target@));
    }
    ExecutionPlan { actions }
}

/// The text of a backend step.
pub open spec fn step_text(st: BackendStep) -> Seq<char> {
    match st {
        BackendStep::Describe(a) => action_text(a@),
        BackendStep::Invoke { program, args } => program@ + " "@ + joined(str_views(args@), " "@),
    }
}

/// Numbered lines, one per step: `  k. step`.
pub open spec fn numbered_steps(sts: Seq<BackendStep>) -> Seq<char>
    decreases sts.len(),
{
    if sts.len() == 0 {
        Seq::empty()
    } else {
        numbered_steps(sts.drop_last()) + "  "@ + decimal(sts.len()) + ". "@ + step_text(sts.last()) + "\n"@
    }
}

/// The report of a dry run towards `target` on a backend: the target, the
/// backend, then the numbered steps, or a note that nothing changes.
pub fn dry_run_text(target: &str, backend: &str, steps: &Vec<BackendStep>) -> (r: String)
    ensures
        r@ == "target: "@ + target@ + "\nbackend: "@ + backend@ + "\n"@ + if steps@.len() == 0 {
            "Execution plan: (no changes)\n"@
        } else {
            "Execution plan ("@ + decimal(steps@.len()) + " step(s)):\n"@ + numbered_steps(steps@)
                + "(dry run \u{2014} pass --execute --yes-i-know to realize this plan)\n"@
        },
{
    let mut s = owned("target: ");
    push_str(&mut s, target);
    push_str(&mut s, "\nbackend: ");
    push_str(&mut s, backend);
    push_str(&mut s, "\n");
    if steps.len() == 0 {
        push_str(&mut s, "Execution plan: (no changes)\n");
        return s;
    }
    push_str(&mut s, "Execution plan (");
    let c = decimal_text(steps.len());
    push_str(&mut s, c.as_str());
    push_str(&mut s, " step(s)):\n");
    let ghost head = s@;
    let mut i: usize = 0;
    while i < steps.len()
        invariant
            i <= steps@.len(),
            s@ == head + numbered_steps(steps@.take(i as int)),
        decreases steps@.len() - i,
    {
        proof {
            assert(steps@.take(i + 1).drop_last() =~= steps@.take(i as int));
            assert(steps@.take(i + 1).last() == steps@[i as int]);
        }
        push_str(&mut s, "  ");
        let n = decimal_text(i + 1);
        push_str(&mut s, n.as_str());
        push_str(&mut s, ". ");
        let t = steps[i].text();
        push_str(&mut s, t.as_str());
        push_str(&mut s, "\n");
        i = i + 1;
    }
    proof {
        assert(steps@.take(steps@.len() as int) =~= steps@);
    }
    push_str(&mut s, "(dry run \u{2014} pass --execute --yes-i-know to realize this plan)\n");
    s
}

/// What a backend can realize.
#[derive(Debug, Clone, Copy, PartialEq, Eq, Default)]
pub struct Capabilities {
    /// Nodes, interfaces and links.
    pub link_topology: bool,
    /// Addresses.
    pub addressing: bool,
    /// Traffic control.
    pub traffic_control: bool,
}

/// Why a backend refused a plan.
#[derive(Debug, Clone, PartialEq, Eq)]
pub enum BackendError {
    UnsupportedCapability { backend: &'static str, capability: &'static str },
    Plan(String),
}

/// The text of a backend refusal.
pub open spec fn backend_error_text(e: BackendError) -> Seq<char> {
    match e {
        BackendError::UnsupportedCapability { backend, capability } => "backend "@ + debug_str_spec(
            backend@,
        ) + " does not support capability "@ + debug_str_spec(capability@) + "; refusing explicitly"@,
        BackendError::Plan(m) => "backend plan error: "@ + m@,
    }
}

impl BackendError {
    /// The human-readable text of the refusal.
    pub fn message(&self) -> (r: String)
        ensures
            r@ == backend_error_text(*self),
    {
        match self {
            BackendError::UnsupportedCapability { backend, capability } => {
                let mut s = owned("backend ");
                let q = debug_str(backend);
                push_str(&mut s, q.as_str());
                push_str(&mut s, " does not support capability ");
                let c = debug_str(capability);
                push_str(&mut s, c.as_str());
                push_str(&mut s, "; refusing explicitly");
                s
            },
            BackendError::Plan(m) => {
                let mut s = owned("backend plan error: ");
                push_str(&mut s, m.as_str());
                s
            },
        }
    }
}

/// One step of a backend plan.
#[derive(Debug, Clone, PartialEq, Eq)]
pub enum BackendStep {
    /// A model-level action (simulation, and the dry-run view).
    Describe(Action),
    /// A concrete host invocation.
    Invoke { program: String, args: Vec<String> },
}

impl BackendStep {
    /// The text of the step: the action, or the command line.
    pub fn text(&self) -> (r: String)
        ensures
            self matches BackendStep::Describe(a) ==> r@ == action_text(a@),
            self matches BackendStep::Invoke { program, args } ==> r@ == program@ + " "@ + joined(
                str_views(args@),
                " "@,
            ),
    {
        match self {
            BackendStep::Describe(a) => a.text(),
            BackendStep::Invoke { program, args } => {
                let mut s = copy_string(program);
                push_str(&mut s, " ");
                let ghost head = s@;
                let mut i: usize = 0;
                while i < args.len()
                    invariant
                        i <= args@.len(),
                        s@ == head + joined(str_views(args@.take(i as int)), " "@),
                    decreases args@.len() - i,
                {
                    proof {
                        assert(str_views(args@.take(i + 1)) =~= str_views(args@.take(i as int)).push(
                            args@[i as int]@,
                        ));
                        lemma_joined_push(str_views(args@.take(i as int)), " "@, args@[i as int]@);
                    }
                    if i > 0 {
                        push_str(&mut s, " ");
                    }
                    push_str(&mut s, args[i].as_str());
                    i = i + 1;
                }
                proof {
                    assert(args@.take(args@.len() as int) =~= args@);
                    assert(str_views(Seq::<String>::empty()) =~= Seq::<Seq<char>>::empty());
                }
                s
            },
        }
    }
}

/// The backend contract: a pure, deterministic mapping from a current and
/// a target network to steps.
pub trait ExecutionBackend {
    fn name(&self) -> &'static str;

    fn capabilities(&self) -> Capabilities;

    fn plan(&self, current: &Network, target: &Network) -> (r: Result<Vec<BackendStep>, BackendError>)
        requires
            current.wf(),
            target.wf(),
    ;
}

/// The default backend: model-level description only, no host effects.
pub struct SimulationBackend;

/// The steps of a plan, each describing one action.
pub open spec fn described(acts: Seq<ActionV>, steps: Seq<BackendStep>) -> bool {
    &&& steps.len() == acts.len()
    &&& forall|i: int| 0 <= i < steps.len() ==> (#[trigger] steps[i] matches BackendStep::Describe(a) && a@ == acts[i])
}

impl ExecutionBackend for SimulationBackend {
    fn name(&self) -> (r: &'static str)
        ensures
            r@ == "simulation"@,
    {
        "simulation"
    }

    fn capabilities(&self) -> (r: Capabilities)
        ensures
            r.link_topology && r.addressing && r.traffic_control,
    {
        Capabilities { link_topology: true, addressing: true, traffic_control: true }
    }

    fn plan(&self, current: &Network, target: &Network) -> (r: Result<Vec<BackendStep>, BackendError>)
        ensures
            r matches Ok(steps) && described(plan_actions(current@, target@), steps@),
    {
        let p = plan(current, target);
        let acts = p.actions;
        let ghost av = action_views(acts@);
        let mut steps: Vec<BackendStep> = Vec::new();
        let mut i: usize = 0;
        while i < acts.len()
            invariant
                i <= acts@.len(),
                av == action_views(acts@),
                steps@.len() == i,
                forall|j: int| 0 <= j < i ==> (#[trigger] steps@[j] matches BackendStep::Describe(a) && a@ == av[j]),
            decreases acts@.len() - i,
        {
            let a = acts[i].copy();
            steps.push(BackendStep::Describe(a));
            i = i + 1;
        }
        Ok(steps)
    }
}

} // verus!
