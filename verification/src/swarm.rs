//! The well-formedness analysis of a swarm protocol: loading the protocol
//! into a graph, computing for every state the roles that are active there
//! and the roles involved in what follows, and checking every transition
//! against the subscriptions.

use crate::graph::{EdgeId, Multigraph, NodeId, MAX_ITEMS};
use crate::sets::{NameMap, NameSet, Subscriptions};
use crate::text::Text;
use crate::types::{
    texts, EventType, Protocol, Role, State, StateName, SwarmLabel, Transition,
};
pub use crate::wellformed::well_formed;
use vstd::prelude::*;

verus! {

/// What the analysis knows of one state.
pub struct Node {
    /// The name of the state.
    pub name: State,
    /// The roles that have a command enabled in this state.
    pub active: NameSet<Role>,
    /// The roles that observe an event of some transition that can be
    /// reached from this state.
    pub roles: NameSet<Role>,
}

impl Node {
    /// The record of a state of which nothing is known yet.
    pub fn new(name: State) -> (node: Self)
        ensures
            node.name == name,
            node.active@ == Seq::<Text>::empty(),
            node.roles@ == Seq::<Text>::empty(),
            node.wf(),
    {
        Node { name, active: NameSet::new(), roles: NameSet::new() }
    }

    /// Both sets of the record are in order.
    pub open spec fn wf(&self) -> bool {
        self.active.wf() && self.roles.wf()
    }
}

impl StateName for Node {
    open spec fn name_text(&self) -> Text {
        self.name@
    }

    fn state_name(&self) -> (s: &State) {
        &self.name
    }
}

/// Whether an event type has been seen in the logs of no state, of one
/// state, or of several.
#[derive(Clone, Copy, Debug, PartialEq, Eq, Structural)]
pub enum Variance {
    Absent,
    Invariant(NodeId),
    Variant,
}

impl Variance {
    /// Whether the event type occurs in the logs of several states.
    pub fn is_variant(self) -> (r: bool)
        ensures
            r == (self is Variant),
    {
        matches!(self, Variance::Variant)
    }
}

/// A swarm protocol as a graph, with what the analysis knows of each state.
pub type Analysis = Multigraph<Node, SwarmLabel>;

/// A swarm protocol as a graph of named states.
pub type SwarmGraph = Multigraph<State, SwarmLabel>;

/// The log of edge `e`.
pub open spec fn log_of<N>(g: &Multigraph<N, SwarmLabel>, e: int) -> Seq<Text> {
    g.labels()[e]@.log
}

/// The role that acts on edge `e`.
pub open spec fn role_of<N>(g: &Multigraph<N, SwarmLabel>, e: int) -> Text {
    g.labels()[e]@.role
}

/// The command of edge `e`.
pub open spec fn cmd_of<N>(g: &Multigraph<N, SwarmLabel>, e: int) -> Text {
    g.labels()[e]@.cmd
}

/// Whether role `r` observes at least one event of `log`.
pub open spec fn observes_any(subs: &Subscriptions, r: Text, log: Seq<Text>) -> bool {
    exists|i: int| 0 <= i < log.len() && subs.observes(r, #[trigger] log[i])
}

/// Whether role `r` is active at node `n`: it acts on an edge that leaves
/// `n`.
pub open spec fn acts_at<N>(g: &Multigraph<N, SwarmLabel>, n: int, r: Text) -> bool {
    exists|e: int| g.shape().has_edge(e) && #[trigger] g.source(e) == n && role_of(g, e) == r
}

/// Whether role `r` is involved at node `n`: it has a subscription and
/// observes an event of an edge that leaves a node reached from `n`.
pub open spec fn involved_at<N>(
    g: &Multigraph<N, SwarmLabel>,
    subs: &Subscriptions,
    n: int,
    r: Text,
) -> bool {
    subs.roles().contains(r) && exists|e: int|
        g.shape().has_edge(e) && g.shape().connects(n, #[trigger] g.source(e)) && observes_any(
            subs,
            r,
            log_of(g, e),
        )
}

/// Whether `set` holds a name of `log`.
pub fn log_meets(log: &Vec<EventType>, set: &NameSet<EventType>) -> (r: bool)
    ensures
        r == exists|i: int| 0 <= i < log@.len() && set@.contains(#[trigger] texts(log@)[i]),
{
    let mut i: usize = 0;
    while i < log.len()
        invariant
            i <= log.len(),
            forall|k: int| 0 <= k < i ==> !set@.contains(#[trigger] texts(log@)[k]),
        decreases log.len() - i,
    {
        if set.contains(&log[i]) {
            assert(texts(log@)[i as int] == log[i as int]@);
            return true;
        }
        i += 1;
    }
    false
}

/// The roles that are active at `node`: the roles that act on an edge that
/// leaves it.
pub fn active(g: &Analysis, node: NodeId) -> (set: NameSet<Role>)
    requires
        g.wf(),
        node < g.shape().nodes,
    ensures
        set.wf(),
        forall|r: Text| set@.contains(r) <==> acts_at(g, node as int, r),
{
    let mut set: NameSet<Role> = NameSet::new();
    let out = g.outgoing(node);
    let mut i: usize = 0;
    while i < out.len()
        invariant
            g.wf(),
            set.wf(),
            i <= out.len(),
            forall|k: int|
                0 <= k < out@.len() ==> g.shape().has_edge(#[trigger] out@[k] as int) && g.source(
                    out@[k] as int,
                ) == node,
            forall|r: Text|
                set@.contains(r) <==> exists|k: int|
                    0 <= k < i && role_of(g, #[trigger] out@[k] as int) == r,
        decreases out.len() - i,
    {
        let label = g.edge_weight(out[i]);
        set.insert(label.role.clone());
        i += 1;
    }
    proof {
        assert forall|r: Text| set@.contains(r) <==> acts_at(g, node as int, r) by {
            if set@.contains(r) {
                let k = choose|k: int| 0 <= k < i && role_of(g, #[trigger] out@[k] as int) == r;
                assert(g.source(out@[k] as int) == node);
            }
            if acts_at(g, node as int, r) {
                let e = choose|e: int|
                    g.shape().has_edge(e) && #[trigger] g.source(e) == node && role_of(g, e) == r;
                assert(out@.contains(e as usize));
                let k = choose|k: int| 0 <= k < out@.len() && out@[k] == e as usize;
                assert(role_of(g, out@[k] as int) == r);
            }
        }
    }
    set
}


/// The payload of node `n`.
pub open spec fn node_at(g: &Analysis, n: int) -> Node {
    g.nodes()[n]
}

/// Whether every role of `small` is among `big`.
pub open spec fn within(small: Seq<Text>, big: Seq<Text>) -> bool {
    forall|r: Text| small.contains(r) ==> big.contains(r)
}

/// Whether an edge leads from `node` to `n`, and nothing is recorded as
/// involved at `n`.
pub open spec fn leads_to_empty(g: &Analysis, node: int, n: int) -> bool {
    exists|e: int|
        g.shape().has_edge(e) && #[trigger] g.source(e) == node && g.target(e) == n && node_at(
            g,
            n,
        ).roles@.len() == 0
}

/// A first approximation of the roles involved at `node`: what its
/// successors have so far, and the roles that observe an event of one of its
/// own edges. A successor that has nothing yet is marked in `pending`, and
/// no other mark is set.
#[verifier::loop_isolation(false)]
#[verifier::spinoff_prover]
pub fn involved(g: &Analysis, node: NodeId, subs: &Subscriptions, pending: &mut Vec<bool>) -> (roles:
    NameSet<Role>)
    requires
        g.wf(),
        subs.wf(),
        node < g.shape().nodes,
        old(pending)@.len() == g.shape().nodes,
        forall|n: int| 0 <= n < g.shape().nodes ==> (#[trigger] node_at(g, n)).wf(),
    ensures
        roles.wf(),
        final(pending)@.len() == old(pending)@.len(),
        forall|n: int| 0 <= n < old(pending)@.len() && old(pending)@[n] ==> final(pending)@[n],
        forall|n: int|
            0 <= n < final(pending)@.len() && #[trigger] final(pending)@[n] ==> old(pending)@[n]
                || leads_to_empty(g, node as int, n),
        forall|e: int|
            g.shape().has_edge(e) && #[trigger] g.source(e) == node ==> within(
                node_at(g, g.target(e)).roles@,
                roles@,
            ) && (node_at(g, g.target(e)).roles@.len() == 0 ==> final(pending)@[g.target(e)]),
        forall|e: int, r: Text|
            g.shape().has_edge(e) && #[trigger] g.source(e) == node && subs.roles().contains(r)
                && #[trigger] observes_any(subs, r, log_of(g, e)) ==> roles@.contains(r),
        forall|r: Text|
            roles@.contains(r) ==> (exists|e: int|
                g.shape().has_edge(e) && #[trigger] g.source(e) == node && node_at(
                    g,
                    g.target(e),
                ).roles@.contains(r)) || (subs.roles().contains(r) && exists|e: int|
                g.shape().has_edge(e) && #[trigger] g.source(e) == node && observes_any(
                    subs,
                    r,
                    log_of(g, e),
                )),
{
    let mut roles: NameSet<Role> = NameSet::new();
    let out = g.outgoing(node);
    let mut i: usize = 0;
    while i < out.len()
        invariant
            g.wf(),
            subs.wf(),
            roles.wf(),
            i <= out.len(),
            pending@.len() == g.shape().nodes,
            forall|n: int| 0 <= n < g.shape().nodes ==> (#[trigger] node_at(g, n)).wf(),
            forall|n: int| 0 <= n < old(pending)@.len() && old(pending)@[n] ==> pending@[n],
            forall|n: int|
                0 <= n < pending@.len() && #[trigger] pending@[n] ==> old(pending)@[n]
                    || leads_to_empty(g, node as int, n),
            forall|k: int|
                0 <= k < out@.len() ==> g.shape().has_edge(#[trigger] out@[k] as int) && g.source(
                    out@[k] as int,
                ) == node,
            forall|k: int|
                0 <= k < i ==> within(node_at(g, g.target(#[trigger] out@[k] as int)).roles@, roles@)
                    && (node_at(g, g.target(out@[k] as int)).roles@.len() == 0 ==> pending@[g.target(
                    out@[k] as int,
                )]),
            forall|k: int, r: Text|
                0 <= k < i && subs.roles().contains(r) && #[trigger] observes_any(
                    subs,
                    r,
                    log_of(g, #[trigger] out@[k] as int),
                ) ==> roles@.contains(r),
            forall|r: Text|
                roles@.contains(r) ==> (exists|k: int|
                    0 <= k < i && node_at(g, g.target(#[trigger] out@[k] as int)).roles@.contains(r))
                    || (subs.roles().contains(r) && exists|k: int|
                    0 <= k < i && observes_any(subs, r, log_of(g, #[trigger] out@[k] as int))),
        decreases out.len() - i,
    {
        let edge = out[i];
        let ends = g.edge_endpoints(edge).unwrap();
        let target = ends.1;
        let target_roles = &g.node_weight(target).roles;
        assert(node_at(g, target as int).wf());
        if target_roles.is_empty() {
            let ghost marks = pending@;
            pending.set(target, true);
            proof {
                assert(g.source(edge as int) == node && g.target(edge as int) == target);
                assert(leads_to_empty(g, node as int, target as int));
                assert forall|n: int|
                    0 <= n < pending@.len() && #[trigger] pending@[n] implies old(pending)@[n]
                    || leads_to_empty(g, node as int, n) by {
                    if n != target {
                        assert(marks[n]);
                    }
                }
            }
        } else {
            roles.extend(target_roles);
        }
        let label = g.edge_weight(edge);
        let mut j: usize = 0;
        while j < subs.len()
            invariant
                g.wf(),
                subs.wf(),
                roles.wf(),
                j <= subs.roles().len(),
                g.shape().has_edge(edge as int),
                *label == g.labels()[edge as int],
                within(node_at(g, target as int).roles@, roles@),
                forall|k: int|
                    0 <= k < i ==> within(
                        node_at(g, g.target(#[trigger] out@[k] as int)).roles@,
                        roles@,
                    ),
                forall|k: int, r: Text|
                    0 <= k < i && subs.roles().contains(r) && #[trigger] observes_any(
                        subs,
                        r,
                        log_of(g, #[trigger] out@[k] as int),
                    ) ==> roles@.contains(r),
                forall|q: int|
                    0 <= q < j && observes_any(subs, #[trigger] subs.roles()[q], log_of(g, edge as int))
                        ==> roles@.contains(subs.roles()[q]),
                forall|r: Text|
                    roles@.contains(r) ==> (exists|k: int|
                        0 <= k < i + 1 && node_at(g, g.target(#[trigger] out@[k] as int)).roles@.contains(
                            r,
                        )) || (subs.roles().contains(r) && exists|k: int|
                        0 <= k < i + 1 && observes_any(subs, r, log_of(g, #[trigger] out@[k] as int))),
            decreases subs.roles().len() - j,
        {
            let role = subs.role(j);
            if !roles.contains(role) {
                let types = subs.events(j);
                let interested = log_meets(&label.log_type, types);
                proof {
                    let log = log_of(g, edge as int);
                    assert(log == texts(label.log_type@));
                    assert(subs.roles().contains(subs.roles()[j as int]));
                    if interested {
                        let x = choose|x: int|
                            0 <= x < log.len() && types@.contains(#[trigger] texts(label.log_type@)[x]);
                        assert(subs.observes(role@, log[x]));
                        assert(observes_any(subs, role@, log_of(g, out@[i as int] as int)));
                    } else {
                        assert(!observes_any(subs, role@, log));
                    }
                }
                if interested {
                    roles.insert(role.clone());
                }
            }
            j += 1;
        }
        proof {
            assert forall|r: Text|
                subs.roles().contains(r) && #[trigger] observes_any(
                    subs,
                    r,
                    log_of(g, out@[i as int] as int),
                ) implies roles@.contains(r) by {
                let q = choose|q: int| 0 <= q < subs.roles().len() && subs.roles()[q] == r;
                assert(observes_any(subs, subs.roles()[q], log_of(g, edge as int)));
            }
        }
        i += 1;
    }
    proof {
        assert forall|e: int| g.shape().has_edge(e) && #[trigger] g.source(e) == node implies within(
            node_at(g, g.target(e)).roles@,
            roles@,
        ) && (node_at(g, g.target(e)).roles@.len() == 0 ==> pending@[g.target(e)]) by {
            assert(out@.contains(e as usize));
            let k = choose|k: int| 0 <= k < out@.len() && out@[k] == e as usize;
            assert(out@[k] as int == e);
        }
        assert forall|e: int, r: Text|
            g.shape().has_edge(e) && #[trigger] g.source(e) == node && subs.roles().contains(r)
                && #[trigger] observes_any(subs, r, log_of(g, e)) implies roles@.contains(r) by {
            assert(out@.contains(e as usize));
            let k = choose|k: int| 0 <= k < out@.len() && out@[k] == e as usize;
            assert(out@[k] as int == e);
        }
        assert forall|r: Text| roles@.contains(r) implies (exists|e: int|
            g.shape().has_edge(e) && #[trigger] g.source(e) == node && node_at(
                g,
                g.target(e),
            ).roles@.contains(r)) || (subs.roles().contains(r) && exists|e: int|
            g.shape().has_edge(e) && #[trigger] g.source(e) == node && observes_any(
                subs,
                r,
                log_of(g, e),
            )) by {
            if exists|k: int|
                0 <= k < i && node_at(g, g.target(#[trigger] out@[k] as int)).roles@.contains(r) {
                let k = choose|k: int|
                    0 <= k < i && node_at(g, g.target(#[trigger] out@[k] as int)).roles@.contains(r);
                assert(g.source(out@[k] as int) == node);
            } else {
                let k = choose|k: int|
                    0 <= k < i && observes_any(subs, r, log_of(g, #[trigger] out@[k] as int));
                assert(g.source(out@[k] as int) == node);
            }
        }
    }
    roles
}


/// Whether `o` is a place in the log of an edge, and `ev` the event type
/// that stands there. A place is an edge and a position in its log.
pub open spec fn occurs<N>(g: &Multigraph<N, SwarmLabel>, o: (int, int), ev: Text) -> bool {
    g.shape().has_edge(o.0) && 0 <= o.1 < log_of(g, o.0).len() && log_of(g, o.0)[o.1] == ev
}

/// Whether `ev` stands at two of the places `seen` whose edges leave
/// different nodes.
pub open spec fn clash<N>(g: &Multigraph<N, SwarmLabel>, seen: Set<(int, int)>, ev: Text) -> bool {
    exists|a: (int, int), b: (int, int)|
        #![trigger seen.contains(a), seen.contains(b)]
        seen.contains(a) && seen.contains(b) && occurs(g, a, ev) && occurs(g, b, ev) && g.source(
            a.0,
        ) != g.source(b.0)
}

/// Whether `events` records, of exactly the event types that stand at the
/// places `seen`, whether their edges leave one node or several.
pub open spec fn tracks(
    g: &Analysis,
    events: &NameMap<EventType, Variance>,
    seen: Set<(int, int)>,
) -> bool {
    &&& events.wf()
    &&& forall|ev: Text| #[trigger]
        events.has(ev) ==> !(events.at(ev) is Absent) && exists|o: (int, int)|
            #![trigger seen.contains(o)]
            seen.contains(o) && occurs(g, o, ev)
    &&& forall|o: (int, int), ev: Text|
        #![trigger seen.contains(o), occurs(g, o, ev)]
        seen.contains(o) && occurs(g, o, ev) ==> events.has(ev) && (events.at(ev) is Invariant
            ==> events.at(ev)->Invariant_0 == g.source(o.0))
    &&& forall|ev: Text| #[trigger]
        events.has(ev) && events.at(ev) is Variant ==> clash(g, seen, ev)
}

/// Records that `ev` stands at place `o`, in the log of an edge that leaves
/// `node`.
#[verifier::spinoff_prover]
fn note_event(
    g: &Analysis,
    events: &mut NameMap<EventType, Variance>,
    ev: &EventType,
    node: NodeId,
    Ghost(seen): Ghost<Set<(int, int)>>,
    Ghost(o): Ghost<(int, int)>,
)
    requires
        tracks(g, old(events), seen),
        occurs(g, o, ev@),
        g.source(o.0) == node,
    ensures
        tracks(g, final(events), seen.insert(o)),
{
    let ghost after = seen.insert(o);
    let ghost old_events = *events;
    match events.find(ev) {
        None => {
            events.insert(ev.clone(), Variance::Invariant(node));
            proof {
                assert(after.contains(o));
                assert forall|ev2: Text| #[trigger]
                    events.has(ev2) implies !(events.at(ev2) is Absent) && exists|p: (int, int)|
                    #![trigger after.contains(p)]
                    after.contains(p) && occurs(g, p, ev2) by {
                    if ev2 != ev@ {
                        assert(old_events.has(ev2));
                        let p = choose|p: (int, int)|
                            #![trigger seen.contains(p)]
                            seen.contains(p) && occurs(g, p, ev2);
                        assert(after.contains(p));
                    }
                }
                assert forall|ev2: Text| #[trigger]
                    events.has(ev2) && events.at(ev2) is Variant implies clash(g, after, ev2) by {
                    assert(old_events.has(ev2));
                    assert(clash(g, seen, ev2));
                    let (a, b) = choose|a: (int, int), b: (int, int)|
                        #![trigger seen.contains(a), seen.contains(b)]
                        seen.contains(a) && seen.contains(b) && occurs(g, a, ev2) && occurs(g, b, ev2)
                            && g.source(a.0) != g.source(b.0);
                    assert(after.contains(a) && after.contains(b));
                }
                assert forall|p: (int, int), ev2: Text|
                    #![trigger after.contains(p), occurs(g, p, ev2)]
                    after.contains(p) && occurs(g, p, ev2) implies events.has(ev2) && (events.at(
                    ev2,
                ) is Invariant ==> events.at(ev2)->Invariant_0 == g.source(p.0)) by {
                    if p != o {
                        assert(seen.contains(p));
                        assert(old_events.has(ev2));
                    }
                }
            }
        },
        Some(i) => {
            let known = *events.value(i);
            if known != Variance::Invariant(node) {
                events.set(i, Variance::Variant);
                proof {
                    assert(after.contains(o));
                    assert(old_events.has(ev@));
                    let first = choose|p: (int, int)|
                        #![trigger seen.contains(p)]
                        seen.contains(p) && occurs(g, p, ev@);
                    assert(after.contains(first));
                    if known is Variant {
                        let (a, b) = choose|a: (int, int), b: (int, int)|
                            #![trigger seen.contains(a), seen.contains(b)]
                            seen.contains(a) && seen.contains(b) && occurs(g, a, ev@) && occurs(
                                g,
                                b,
                                ev@,
                            ) && g.source(a.0) != g.source(b.0);
                        assert(after.contains(a) && after.contains(b));
                    } else {
                        assert(known is Invariant);
                        assert(g.source(first.0) != g.source(o.0));
                    }
                    assert(clash(g, after, ev@));
                    assert forall|ev2: Text| #[trigger]
                        events.has(ev2) implies !(events.at(ev2) is Absent) && exists|p: (int, int)|
                        #![trigger after.contains(p)]
                        after.contains(p) && occurs(g, p, ev2) by {
                        assert(old_events.has(ev2));
                        let p = choose|p: (int, int)|
                            #![trigger seen.contains(p)]
                            seen.contains(p) && occurs(g, p, ev2);
                        assert(after.contains(p));
                    }
                    assert forall|ev2: Text| #[trigger]
                        events.has(ev2) && events.at(ev2) is Variant implies clash(g, after, ev2) by {
                        if ev2 != ev@ {
                            assert(old_events.has(ev2));
                            assert(clash(g, seen, ev2));
                            let (a, b) = choose|a: (int, int), b: (int, int)|
                                #![trigger seen.contains(a), seen.contains(b)]
                                seen.contains(a) && seen.contains(b) && occurs(g, a, ev2) && occurs(
                                    g,
                                    b,
                                    ev2,
                                ) && g.source(a.0) != g.source(b.0);
                            assert(after.contains(a) && after.contains(b));
                        }
                    }
                    assert forall|p: (int, int), ev2: Text|
                        #![trigger after.contains(p), occurs(g, p, ev2)]
                        after.contains(p) && occurs(g, p, ev2) implies events.has(ev2) && (events.at(
                        ev2,
                    ) is Invariant ==> events.at(ev2)->Invariant_0 == g.source(p.0)) by {
                        if p != o {
                            assert(seen.contains(p));
                            assert(old_events.has(ev2));
                        }
                    }
                }
            } else {
                proof {
                    assert(after.contains(o));
                    assert forall|ev2: Text| #[trigger]
                        events.has(ev2) implies !(events.at(ev2) is Absent) && exists|p: (int, int)|
                        #![trigger after.contains(p)]
                        after.contains(p) && occurs(g, p, ev2) by {
                        let p = choose|p: (int, int)|
                            #![trigger seen.contains(p)]
                            seen.contains(p) && occurs(g, p, ev2);
                        assert(after.contains(p));
                    }
                    assert forall|ev2: Text| #[trigger]
                        events.has(ev2) && events.at(ev2) is Variant implies clash(g, after, ev2) by {
                        assert(clash(g, seen, ev2));
                        let (a, b) = choose|a: (int, int), b: (int, int)|
                            #![trigger seen.contains(a), seen.contains(b)]
                            seen.contains(a) && seen.contains(b) && occurs(g, a, ev2) && occurs(
                                g,
                                b,
                                ev2,
                            ) && g.source(a.0) != g.source(b.0);
                        assert(after.contains(a) && after.contains(b));
                    }
                    assert forall|p: (int, int), ev2: Text|
                        #![trigger after.contains(p), occurs(g, p, ev2)]
                        after.contains(p) && occurs(g, p, ev2) implies events.has(ev2) && (events.at(
                        ev2,
                    ) is Invariant ==> events.at(ev2)->Invariant_0 == g.source(p.0)) by {
                        if p != o {
                            assert(seen.contains(p));
                        }
                    }
                }
            }
        },
    }
}


/// The places in the logs of the edges that leave `n`.
pub open spec fn node_places<N>(g: &Multigraph<N, SwarmLabel>, n: int) -> Set<(int, int)> {
    Set::new(
        |o: (int, int)| g.shape().has_edge(o.0) && g.source(o.0) == n && 0 <= o.1 < log_of(g, o.0).len(),
    )
}

/// Whether `ev` is the guard of an edge that leaves a node of `done`.
pub open spec fn guards_from<N>(g: &Multigraph<N, SwarmLabel>, done: Set<int>, ev: Text) -> bool {
    exists|e: int|
        g.shape().has_edge(e) && done.contains(#[trigger] g.source(e)) && log_of(g, e).len() > 0
            && log_of(g, e)[0] == ev
}

/// Folds the logs of the edges that leave `node` into the set of guards and
/// into the record of where each event type occurs.
#[verifier::loop_isolation(false)]
#[verifier::spinoff_prover]
fn mark_events(
    g: &Analysis,
    node: NodeId,
    guards: &mut NameSet<EventType>,
    events: &mut NameMap<EventType, Variance>,
    Ghost(seen): Ghost<Set<(int, int)>>,
    Ghost(done): Ghost<Set<int>>,
)
    requires
        g.wf(),
        node < g.shape().nodes,
        old(guards).wf(),
        tracks(g, old(events), seen),
        forall|ev: Text| old(guards)@.contains(ev) <==> guards_from(g, done, ev),
    ensures
        final(guards).wf(),
        tracks(g, final(events), seen.union(node_places(g, node as int))),
        forall|ev: Text| final(guards)@.contains(ev) <==> guards_from(g, done.insert(node as int), ev),
{
    let out = g.outgoing(node);
    let ghost mut cur = seen;
    let mut i: usize = 0;
    while i < out.len()
        invariant
            i <= out.len(),
            guards.wf(),
            tracks(g, events, cur),
            forall|o: (int, int)|
                cur.contains(o) <==> seen.contains(o) || (0 <= o.1 < log_of(g, o.0).len() && exists|
                    k: int,
                |
                    0 <= k < i && #[trigger] out@[k] == o.0),
            forall|ev: Text| #[trigger]
                guards@.contains(ev) ==> guards_from(g, done, ev) || exists|k: int|
                    0 <= k < i && log_of(g, #[trigger] out@[k] as int).len() > 0 && log_of(
                        g,
                        out@[k] as int,
                    )[0] == ev,
            forall|ev: Text| #[trigger] guards_from(g, done, ev) ==> guards@.contains(ev),
            forall|k: int|
                0 <= k < i && log_of(g, #[trigger] out@[k] as int).len() > 0 ==> guards@.contains(
                    log_of(g, out@[k] as int)[0],
                ),
        decreases out.len() - i,
    {
        let edge = out[i];
        let label = g.edge_weight(edge);
        let log = &label.log_type;
        assert(texts(log@) == log_of(g, edge as int));
        let ghost guards_before = guards@;
        if log.len() >= 1 {
            guards.insert(log[0].clone());
            assert(log[0]@ == log_of(g, edge as int)[0]);
        }
        proof {
            assert forall|ev: Text| #[trigger] guards@.contains(ev) implies guards_from(g, done, ev)
                || exists|k: int|
                0 <= k < i + 1 && log_of(g, #[trigger] out@[k] as int).len() > 0 && log_of(
                    g,
                    out@[k] as int,
                )[0] == ev by {
                if guards_before.contains(ev) {
                    if !guards_from(g, done, ev) {
                        let k = choose|k: int|
                            0 <= k < i && log_of(g, #[trigger] out@[k] as int).len() > 0 && log_of(
                                g,
                                out@[k] as int,
                            )[0] == ev;
                        assert(0 <= k < i + 1);
                    }
                } else {
                    assert(log_of(g, out@[i as int] as int)[0] == ev);
                }
            }
        }
        let ghost before = cur;
        let mut j: usize = 0;
        while j < log.len()
            invariant
                j <= log.len(),
                tracks(g, events, cur),
                forall|o: (int, int)|
                    cur.contains(o) <==> before.contains(o) || (o.0 == edge && 0 <= o.1 < j),
            decreases log.len() - j,
        {
            let ghost o = (edge as int, j as int);
            assert(log[j as int]@ == log_of(g, edge as int)[j as int]);
            note_event(g, events, &log[j], node, Ghost(cur), Ghost(o));
            proof {
                cur = cur.insert(o);
            }
            j += 1;
        }
        i += 1;
    }
    proof {
        let total = seen.union(node_places(g, node as int));
        assert forall|o: (int, int)| cur.contains(o) <==> total.contains(o) by {
            if node_places(g, node as int).contains(o) {
                assert(out@.contains(o.0 as usize));
                let k = choose|k: int| 0 <= k < out@.len() && out@[k] == o.0 as usize;
                assert(out@[k] == o.0);
            }
        }
        assert(cur =~= total);
        assert forall|ev: Text| guards@.contains(ev) <==> guards_from(
            g,
            done.insert(node as int),
            ev,
        ) by {
            if guards@.contains(ev) {
                if guards_from(g, done, ev) {
                    let e = choose|e: int|
                        g.shape().has_edge(e) && done.contains(#[trigger] g.source(e)) && log_of(
                            g,
                            e,
                        ).len() > 0 && log_of(g, e)[0] == ev;
                    assert(done.insert(node as int).contains(g.source(e)));
                } else {
                    let k = choose|k: int|
                        0 <= k < i && log_of(g, #[trigger] out@[k] as int).len() > 0 && log_of(
                            g,
                            out@[k] as int,
                        )[0] == ev;
                    assert(done.insert(node as int).contains(g.source(out@[k] as int)));
                }
            }
            if guards_from(g, done.insert(node as int), ev) {
                let e = choose|e: int|
                    g.shape().has_edge(e) && done.insert(node as int).contains(
                        #[trigger] g.source(e),
                    ) && log_of(g, e).len() > 0 && log_of(g, e)[0] == ev;
                if g.source(e) == node {
                    assert(out@.contains(e as usize));
                    let k = choose|k: int| 0 <= k < out@.len() && out@[k] == e as usize;
                    assert(out@[k] as int == e);
                } else {
                    assert(done.contains(g.source(e)));
                    assert(guards_from(g, done, ev));
                }
            }
        }
    }
}


/// A cursor over the predecessors of a node: it walks the edges that enter
/// the node, newest first, and skips the node's own loops.
pub struct Neighbors {
    node: NodeId,
    last: Option<EdgeId>,
}

impl Neighbors {
    /// The node whose predecessors are walked.
    pub closed spec fn node(&self) -> int {
        self.node as int
    }

    /// The edges that are still to come are those below this number.
    pub closed spec fn bound<N, E>(&self, g: &Multigraph<N, E>) -> int {
        match self.last {
            None => g.shape().edges.len() as int,
            Some(e) => e as int,
        }
    }

    /// The cursor stands at `node` of `g`, on an edge that enters it or
    /// before the first.
    pub closed spec fn wf<N, E>(&self, g: &Multigraph<N, E>) -> bool {
        &&& self.node < g.shape().nodes
        &&& match self.last {
            None => true,
            Some(e) => g.shape().has_edge(e as int) && g.target(e as int) == self.node,
        }
    }

    /// A cursor stands in a graph of the same shape as it stands in this
    /// one.
    pub proof fn lemma_same_shape<N, E>(&self, a: &Multigraph<N, E>, b: &Multigraph<N, E>)
        requires
            a.shape() == b.shape(),
        ensures
            self.wf(a) == self.wf(b),
            self.bound(a) == self.bound(b),
    {
    }

    /// A cursor before the first predecessor of `node`.
    pub fn new(node: NodeId) -> (cursor: Self)
        ensures
            cursor.node() == node,
            forall|g: &Multigraph<Node, SwarmLabel>|
                node < g.shape().nodes ==> #[trigger] cursor.wf(g) && cursor.bound(g)
                    == g.shape().edges.len(),
    {
        Neighbors { node, last: None }
    }

    /// The next predecessor: the source of the newest edge not yet passed
    /// that enters the node from another node.
    pub fn next<N, E>(&mut self, g: &Multigraph<N, E>) -> (found: Option<NodeId>)
        requires
            g.wf(),
            old(self).wf(g),
        ensures
            final(self).wf(g),
            final(self).node() == old(self).node(),
            0 <= final(self).bound(g) <= old(self).bound(g),
            forall|x: int|
                final(self).bound(g) < x < old(self).bound(g) && g.shape().has_edge(x)
                    && #[trigger] g.target(x) == old(self).node() ==> g.source(x) == old(self).node(),
            match found {
                Some(p) => {
                    &&& p != old(self).node()
                    &&& p < g.shape().nodes
                    &&& final(self).bound(g) < old(self).bound(g)
                    &&& g.shape().has_edge(final(self).bound(g))
                    &&& g.target(final(self).bound(g)) == old(self).node()
                    &&& g.source(final(self).bound(g)) == p
                },
                None => forall|x: int|
                    0 <= x < old(self).bound(g) && g.shape().has_edge(x) && #[trigger] g.target(x)
                        == old(self).node() ==> g.source(x) == old(self).node(),
            },
    {
        loop
            invariant
                g.wf(),
                self.wf(g),
                self.node == old(self).node,
                0 <= self.bound(g) <= old(self).bound(g),
                forall|x: int|
                    self.bound(g) <= x < old(self).bound(g) && g.shape().has_edge(x)
                        && #[trigger] g.target(x) == self.node ==> g.source(x) == self.node,
            decreases self.bound(g),
        {
            let step = match self.last {
                Some(edge) => g.next_incoming(edge),
                None => g.first_incoming(self.node),
            };
            let next = match step {
                Some(next) => next,
                None => {
                    return None;
                },
            };
            self.last = Some(next);
            let source = match g.edge_endpoints(next) {
                Some(ends) => ends.0,
                None => {
                    return None;
                },
            };
            if source != self.node {
                return Some(source);
            }
        }
    }
}


/// The roles recorded as involved at node `n`.
pub open spec fn roles_at(g: &Analysis, n: int) -> Seq<Text> {
    g.nodes()[n].roles@
}

/// Whether two graphs differ at most in what is recorded of the roles at
/// their nodes.
pub open spec fn same_structure(a: &Analysis, b: &Analysis) -> bool {
    &&& a.shape() == b.shape()
    &&& a.labels() == b.labels()
    &&& a.nodes().len() == b.nodes().len()
    &&& forall|n: int| 0 <= n < a.nodes().len() ==> (#[trigger] a.nodes()[n]).name@ == b.nodes()[n].name@
}

/// Every record of the graph has its sets in order.
pub open spec fn nodes_wf(g: &Analysis) -> bool {
    forall|n: int| 0 <= n < g.shape().nodes ==> (#[trigger] node_at(g, n)).wf()
}

/// Every role recorded as involved at a node is involved there.
pub open spec fn sound(g: &Analysis, subs: &Subscriptions) -> bool {
    forall|n: int, r: Text|
        0 <= n < g.shape().nodes && #[trigger] roles_at(g, n).contains(r) ==> involved_at(g, subs, n, r)
}

/// The record of node `v` holds every role that observes an event of an
/// edge that leaves `v`.
pub open spec fn local_at(g: &Analysis, subs: &Subscriptions, v: int) -> bool {
    forall|e: int, r: Text|
        g.shape().has_edge(e) && #[trigger] g.source(e) == v && subs.roles().contains(r)
            && #[trigger] observes_any(subs, r, log_of(g, e)) ==> roles_at(g, v).contains(r)
}

/// The record of node `v` holds as active exactly the roles that are.
pub open spec fn active_at(g: &Analysis, v: int) -> bool {
    forall|r: Text| #[trigger] node_at(g, v).active@.contains(r) <==> acts_at(g, v, r)
}

/// What holds of the involved roles in two graphs of the same structure
/// holds of both.
pub proof fn lemma_same_structure(a: &Analysis, b: &Analysis, subs: &Subscriptions)
    requires
        a.shape() == b.shape(),
        a.labels() == b.labels(),
    ensures
        forall|n: int, r: Text| #[trigger] involved_at(a, subs, n, r) == involved_at(b, subs, n, r),
        forall|n: int, r: Text| #[trigger] acts_at(a, n, r) == acts_at(b, n, r),
        forall|e: int| #[trigger] a.source(e) == b.source(e),
        forall|e: int| #[trigger] a.target(e) == b.target(e),
        forall|e: int| #[trigger] log_of(a, e) == log_of(b, e),
        forall|e: int| #[trigger] role_of(a, e) == role_of(b, e),
        forall|o: (int, int), ev: Text| #[trigger] occurs(a, o, ev) == occurs(b, o, ev),
        forall|s: Set<(int, int)>, ev: Text| #[trigger] clash(a, s, ev) == clash(b, s, ev),
        forall|d: Set<int>, ev: Text| #[trigger] guards_from(a, d, ev) == guards_from(b, d, ev),
        forall|n: int| #[trigger] node_places(a, n) == node_places(b, n),
{
    assert forall|n: int, r: Text| #[trigger]
        involved_at(a, subs, n, r) == involved_at(b, subs, n, r) by {
        if involved_at(a, subs, n, r) {
            let e = choose|e: int|
                a.shape().has_edge(e) && a.shape().connects(n, #[trigger] a.source(e))
                    && observes_any(subs, r, log_of(a, e));
            assert(b.shape().connects(n, b.source(e)) && observes_any(subs, r, log_of(b, e)));
        }
        if involved_at(b, subs, n, r) {
            let e = choose|e: int|
                b.shape().has_edge(e) && b.shape().connects(n, #[trigger] b.source(e))
                    && observes_any(subs, r, log_of(b, e));
            assert(a.shape().connects(n, a.source(e)) && observes_any(subs, r, log_of(a, e)));
        }
    }
    assert forall|n: int, r: Text| #[trigger] acts_at(a, n, r) == acts_at(b, n, r) by {
        if acts_at(a, n, r) {
            let e = choose|e: int|
                a.shape().has_edge(e) && #[trigger] a.source(e) == n && role_of(a, e) == r;
            assert(b.source(e) == n && role_of(b, e) == r);
        }
        if acts_at(b, n, r) {
            let e = choose|e: int|
                b.shape().has_edge(e) && #[trigger] b.source(e) == n && role_of(b, e) == r;
            assert(a.source(e) == n && role_of(a, e) == r);
        }
    }
    assert forall|s: Set<(int, int)>, ev: Text| #[trigger] clash(a, s, ev) == clash(b, s, ev) by {
        if clash(a, s, ev) {
            let (x, y) = choose|x: (int, int), y: (int, int)|
                #![trigger s.contains(x), s.contains(y)]
                s.contains(x) && s.contains(y) && occurs(a, x, ev) && occurs(a, y, ev) && a.source(
                    x.0,
                ) != a.source(y.0);
            assert(occurs(b, x, ev) && occurs(b, y, ev) && b.source(x.0) != b.source(y.0));
        }
        if clash(b, s, ev) {
            let (x, y) = choose|x: (int, int), y: (int, int)|
                #![trigger s.contains(x), s.contains(y)]
                s.contains(x) && s.contains(y) && occurs(b, x, ev) && occurs(b, y, ev) && b.source(
                    x.0,
                ) != b.source(y.0);
            assert(occurs(a, x, ev) && occurs(a, y, ev) && a.source(x.0) != a.source(y.0));
        }
    }
    assert forall|d: Set<int>, ev: Text| #[trigger]
        guards_from(a, d, ev) == guards_from(b, d, ev) by {
        if guards_from(a, d, ev) {
            let e = choose|e: int|
                a.shape().has_edge(e) && d.contains(#[trigger] a.source(e)) && log_of(a, e).len() > 0
                    && log_of(a, e)[0] == ev;
            assert(d.contains(b.source(e)));
        }
        if guards_from(b, d, ev) {
            let e = choose|e: int|
                b.shape().has_edge(e) && d.contains(#[trigger] b.source(e)) && log_of(b, e).len() > 0
                    && log_of(b, e)[0] == ev;
            assert(d.contains(a.source(e)));
        }
    }
    assert forall|n: int| #[trigger] node_places(a, n) == node_places(b, n) by {
        assert(node_places(a, n) =~= node_places(b, n));
    }
}

/// The record of where event types occur carries over to a graph of the
/// same structure.
pub proof fn lemma_tracks_same(
    a: &Analysis,
    b: &Analysis,
    subs: &Subscriptions,
    events: &NameMap<EventType, Variance>,
    seen: Set<(int, int)>,
)
    requires
        a.shape() == b.shape(),
        a.labels() == b.labels(),
        tracks(a, events, seen),
    ensures
        tracks(b, events, seen),
{
    lemma_same_structure(a, b, subs);
    assert forall|ev: Text| #[trigger] events.has(ev) implies !(events.at(ev) is Absent) && exists|
        o: (int, int),
    |
        #![trigger seen.contains(o)]
        seen.contains(o) && occurs(b, o, ev) by {
        let o = choose|o: (int, int)| #![trigger seen.contains(o)] seen.contains(o) && occurs(a, o, ev);
        assert(occurs(b, o, ev));
    }
    assert forall|o: (int, int), ev: Text|
        #![trigger seen.contains(o), occurs(b, o, ev)]
        seen.contains(o) && occurs(b, o, ev) implies events.has(ev) && (events.at(ev) is Invariant
        ==> events.at(ev)->Invariant_0 == b.source(o.0)) by {
        assert(occurs(a, o, ev));
    }
}


/// The nodes among the first `k` of `order`.
pub open spec fn picked(order: Seq<usize>, k: int) -> Set<int> {
    Set::new(|n: int| exists|i: int| 0 <= i < k && i < order.len() && #[trigger] order[i] == n)
}

/// The places in the logs of the edges that leave a node of `nodes`.
pub open spec fn places_from<N>(g: &Multigraph<N, SwarmLabel>, nodes: Set<int>) -> Set<(int, int)> {
    Set::new(
        |o: (int, int)|
            g.shape().has_edge(o.0) && nodes.contains(g.source(o.0)) && 0 <= o.1 < log_of(g, o.0).len(),
    )
}

/// Whether the roles recorded at the target of edge `e` are recorded at its
/// source too, or the target is marked in `pending`.
pub open spec fn settled(g: &Analysis, pending: Seq<bool>, e: int) -> bool {
    pending[g.target(e)] || within(roles_at(g, g.target(e)), roles_at(g, g.source(e)))
}

/// Replaces what is recorded of the roles at node `v`.
fn record(graph: &mut Analysis, v: NodeId, active: NameSet<Role>, roles: NameSet<Role>)
    requires
        old(graph).wf(),
        v < old(graph).shape().nodes,
    ensures
        final(graph).wf(),
        same_structure(final(graph), old(graph)),
        node_at(final(graph), v as int).active@ == active@,
        node_at(final(graph), v as int).roles@ == roles@,
        forall|n: int|
            0 <= n < old(graph).shape().nodes && n != v ==> #[trigger] node_at(final(graph), n)
                == node_at(old(graph), n),
{
    let name = graph.node_weight(v).name.clone();
    graph.set_node_weight(v, Node { name, active, roles });
}

/// The first pass of the analysis: visits the nodes of `order` and records
/// at each the active roles and a first approximation of the involved
/// roles, built from what its successors have at that time.
#[verifier::spinoff_prover]
fn first_pass(
    graph: &mut Analysis,
    order: &Vec<NodeId>,
    subs: &Subscriptions,
    pending: &mut Vec<bool>,
    guards: &mut NameSet<EventType>,
    events: &mut NameMap<EventType, Variance>,
)
    requires
        old(graph).wf(),
        subs.wf(),
        nodes_wf(old(graph)),
        order@.no_duplicates(),
        forall|i: int| 0 <= i < order@.len() ==> (#[trigger] order@[i]) < old(graph).shape().nodes,
        forall|n: int| 0 <= n < old(graph).shape().nodes ==> (#[trigger] roles_at(old(graph), n)).len() == 0,
        old(pending)@.len() == old(graph).shape().nodes,
        old(guards).wf(),
        old(guards)@.len() == 0,
        tracks(old(graph), old(events), Set::empty()),
    ensures
        final(graph).wf(),
        same_structure(final(graph), old(graph)),
        nodes_wf(final(graph)),
        final(pending)@.len() == old(pending)@.len(),
        sound(final(graph), subs),
        forall|i: int|
            0 <= i < order@.len() ==> local_at(final(graph), subs, #[trigger] order@[i] as int)
                && active_at(final(graph), order@[i] as int),
        forall|e: int|
            final(graph).shape().has_edge(e) && picked(order@, order@.len() as int).contains(
                #[trigger] final(graph).source(e),
            ) ==> settled(final(graph), final(pending)@, e),
        forall|n: int|
            0 <= n < final(graph).shape().nodes && !picked(order@, order@.len() as int).contains(n)
                ==> #[trigger] node_at(final(graph), n) == node_at(old(graph), n),
        final(guards).wf(),
        tracks(
            final(graph),
            final(events),
            places_from(final(graph), picked(order@, order@.len() as int)),
        ),
        forall|ev: Text|
            final(guards)@.contains(ev) <==> guards_from(
                final(graph),
                picked(order@, order@.len() as int),
                ev,
            ),
{
    let ghost g0 = *graph;
    let mut k: usize = 0;
    proof {
        assert(picked(order@, 0) =~= Set::<int>::empty());
        assert(places_from(graph, picked(order@, 0)) =~= Set::<(int, int)>::empty());
    }
    while k < order.len()
        invariant
            k <= order@.len(),
            graph.wf(),
            subs.wf(),
            same_structure(graph, &g0),
            nodes_wf(graph),
            order@.no_duplicates(),
            forall|i: int| 0 <= i < order@.len() ==> (#[trigger] order@[i]) < graph.shape().nodes,
            pending@.len() == graph.shape().nodes,
            sound(graph, subs),
            forall|i: int|
                0 <= i < k ==> local_at(graph, subs, #[trigger] order@[i] as int) && active_at(
                    graph,
                    order@[i] as int,
                ),
            forall|e: int|
                graph.shape().has_edge(e) && picked(order@, k as int).contains(
                    #[trigger] graph.source(e),
                ) ==> pending@[graph.target(e)] || (picked(order@, k as int).contains(graph.target(e))
                    && within(roles_at(graph, graph.target(e)), roles_at(graph, graph.source(e)))),
            forall|n: int|
                0 <= n < graph.shape().nodes && !picked(order@, k as int).contains(n) ==> (
                #[trigger] roles_at(graph, n)).len() == 0,
            forall|n: int|
                0 <= n < graph.shape().nodes && !picked(order@, k as int).contains(n)
                    ==> #[trigger] node_at(graph, n) == node_at(&g0, n),
            guards.wf(),
            tracks(graph, events, places_from(graph, picked(order@, k as int))),
            forall|ev: Text|
                guards@.contains(ev) <==> guards_from(graph, picked(order@, k as int), ev),
        decreases order@.len() - k,
    {
        let v = order[k];
        let ghost g1 = *graph;
        let ghost pending1 = pending@;
        let ghost done = picked(order@, k as int);
        let ghost done2 = picked(order@, k + 1);
        let act = active(graph, v);
        let roles = involved(graph, v, subs, pending);
        let ghost new_roles = roles@;
        record(graph, v, act, roles);
        proof {
            lemma_same_structure(&g1, graph, subs);
            lemma_tracks_same(&g1, graph, subs, events, places_from(&g1, done));
            assert(places_from(&g1, done) =~= places_from(graph, done));
            assert(!done.contains(v as int)) by {
                if done.contains(v as int) {
                    let i = choose|i: int| 0 <= i < k && i < order@.len() && #[trigger] order@[i] == v;
                    assert(order@[i] == order@[k as int]);
                }
            }
            assert(done2.contains(v as int)) by {
                assert(order@[k as int] == v);
            }
            assert forall|n: int| done2.contains(n) <==> done.contains(n) || n == v by {
                if done.contains(n) {
                    let i = choose|i: int| 0 <= i < k && i < order@.len() && #[trigger] order@[i] == n;
                    assert(0 <= i < k + 1);
                }
                if done2.contains(n) && n != v {
                    let i = choose|i: int|
                        0 <= i < k + 1 && i < order@.len() && #[trigger] order@[i] == n;
                    assert(i < k);
                }
            }
            assert(done2 =~= done.insert(v as int));
            // every role recorded is involved
            assert forall|n: int, r: Text|
                0 <= n < graph.shape().nodes && #[trigger] roles_at(graph, n).contains(
                    r,
                ) implies involved_at(graph, subs, n, r) by {
                if n != v {
                    assert(node_at(graph, n) == node_at(&g1, n));
                    assert(roles_at(&g1, n).contains(r));
                    assert(involved_at(&g1, subs, n, r));
                } else {
                    assert(new_roles.contains(r));
                    if exists|e: int|
                        g1.shape().has_edge(e) && #[trigger] g1.source(e) == v && node_at(
                            &g1,
                            g1.target(e),
                        ).roles@.contains(r) {
                        let e = choose|e: int|
                            g1.shape().has_edge(e) && #[trigger] g1.source(e) == v && node_at(
                                &g1,
                                g1.target(e),
                            ).roles@.contains(r);
                        let t = g1.target(e);
                        assert(g1.shape().edges[e] == (v as int, t));
                        assert(roles_at(&g1, t).contains(r));
                        assert(involved_at(&g1, subs, t, r));
                        lemma_involved_back(&g1, subs, e, r);
                    } else {
                        let e = choose|e: int|
                            g1.shape().has_edge(e) && #[trigger] g1.source(e) == v && observes_any(
                                subs,
                                r,
                                log_of(&g1, e),
                            );
                        crate::graph::lemma_reaches_self(g1.shape(), g1.shape().all(), v as int);
                        assert(g1.shape().connects(v as int, g1.source(e)));
                        assert(involved_at(&g1, subs, v as int, r));
                    }
                }
            }
            // what was recorded at the nodes visited before stays
            assert forall|i: int| 0 <= i < k + 1 implies local_at(
                graph,
                subs,
                #[trigger] order@[i] as int,
            ) && active_at(graph, order@[i] as int) by {
                let u = order@[i] as int;
                if i < k {
                    assert(u != v);
                    assert(node_at(graph, u) == node_at(&g1, u));
                    assert(local_at(&g1, subs, u));
                    assert(active_at(&g1, u));
                    assert forall|e: int, r: Text|
                        graph.shape().has_edge(e) && #[trigger] graph.source(e) == u
                            && subs.roles().contains(r) && #[trigger] observes_any(
                            subs,
                            r,
                            log_of(graph, e),
                        ) implies roles_at(graph, u).contains(r) by {
                        assert(g1.source(e) == u);
                        assert(observes_any(subs, r, log_of(&g1, e)));
                    }
                    assert forall|r: Text| #[trigger]
                        node_at(graph, u).active@.contains(r) <==> acts_at(graph, u, r) by {
                        assert(acts_at(graph, u, r) == acts_at(&g1, u, r));
                    }
                } else {
                    assert forall|e: int, r: Text|
                        graph.shape().has_edge(e) && #[trigger] graph.source(e) == u
                            && subs.roles().contains(r) && #[trigger] observes_any(
                            subs,
                            r,
                            log_of(graph, e),
                        ) implies roles_at(graph, u).contains(r) by {
                        assert(g1.source(e) == u);
                        assert(observes_any(subs, r, log_of(&g1, e)));
                    }
                    assert forall|r: Text| #[trigger]
                        node_at(graph, u).active@.contains(r) <==> acts_at(graph, u, r) by {
                        assert(acts_at(graph, u, r) == acts_at(&g1, u, r));
                    }
                }
            }
            // edges from visited nodes are settled or point to a marked node
            assert forall|e: int|
                graph.shape().has_edge(e) && done2.contains(
                    #[trigger] graph.source(e),
                ) implies pending@[graph.target(e)] || (done2.contains(graph.target(e)) && within(
                roles_at(graph, graph.target(e)),
                roles_at(graph, graph.source(e)),
            )) by {
                let src = graph.source(e);
                let t = graph.target(e);
                assert(g1.source(e) == src && g1.target(e) == t);
                if src == v {
                    if t == v {
                        assert(roles_at(&g1, v as int).len() == 0);
                    } else {
                        assert(node_at(graph, t) == node_at(&g1, t));
                        if roles_at(&g1, t).len() != 0 {
                            assert(done.contains(t));
                        }
                    }
                } else {
                    assert(done.contains(src));
                    assert(node_at(graph, src) == node_at(&g1, src));
                    if !pending1[t] {
                        assert(done.contains(t));
                        assert(node_at(graph, t) == node_at(&g1, t));
                    }
                }
            }
            assert forall|n: int|
                0 <= n < graph.shape().nodes && !done2.contains(n) implies (#[trigger] roles_at(
                graph,
                n,
            )).len() == 0 by {
                assert(node_at(graph, n) == node_at(&g1, n));
                assert(roles_at(&g1, n).len() == 0);
            }
            assert forall|n: int|
                0 <= n < graph.shape().nodes && !done2.contains(n) implies #[trigger] node_at(
                graph,
                n,
            ) == node_at(&g0, n) by {
                assert(node_at(graph, n) == node_at(&g1, n));
                assert(!done.contains(n));
            }
            assert forall|n: int| 0 <= n < graph.shape().nodes implies (#[trigger] node_at(
                graph,
                n,
            )).wf() by {
                if n != v {
                    assert(node_at(graph, n) == node_at(&g1, n));
                }
            }
            assert forall|ev: Text| guards@.contains(ev) <==> guards_from(graph, done, ev) by {
                assert(guards_from(graph, done, ev) == guards_from(&g1, done, ev));
            }
        }
        mark_events(graph, v, guards, events, Ghost(places_from(graph, done)), Ghost(done));
        proof {
            assert(places_from(graph, done).union(node_places(graph, v as int)) =~= places_from(
                graph,
                done2,
            ));
        }
        k += 1;
    }
    proof {
        assert forall|e: int|
            graph.shape().has_edge(e) && picked(order@, order@.len() as int).contains(
                #[trigger] graph.source(e),
            ) implies settled(graph, pending@, e) by {}
    }
}

/// A role involved at the target of an edge is involved at its source.
pub proof fn lemma_involved_back(g: &Analysis, subs: &Subscriptions, e: int, r: Text)
    requires
        g.shape().has_edge(e),
        involved_at(g, subs, g.target(e), r),
    ensures
        involved_at(g, subs, g.source(e), r),
{
    let s = g.shape();
    let f = choose|f: int|
        s.has_edge(f) && s.connects(g.target(e), #[trigger] g.source(f)) && observes_any(
            subs,
            r,
            log_of(g, f),
        );
    crate::graph::lemma_reaches_self(s, s.all(), g.source(e));
    assert(s.all()[e]);
    assert(s.edges[e] == (g.source(e), g.target(e)));
    assert(s.linked(s.all(), g.source(e), g.target(e)));
    crate::graph::lemma_reaches_step(s, s.all(), g.source(e), g.source(e), g.target(e));
    crate::graph::lemma_reaches_trans(s, s.all(), g.source(e), g.target(e), g.source(f));
}


/// The number of marks that are set.
pub open spec fn count_true(marks: Seq<bool>) -> nat
    decreases marks.len(),
{
    if marks.len() == 0 {
        0
    } else {
        count_true(marks.drop_last()) + if marks.last() {
            1nat
        } else {
            0nat
        }
    }
}

/// Changing one mark changes the count by one, or not at all.
pub proof fn lemma_count_update(marks: Seq<bool>, i: int, b: bool)
    requires
        0 <= i < marks.len(),
    ensures
        count_true(marks.update(i, b)) + (if marks[i] {
            1int
        } else {
            0int
        }) == count_true(marks) + (if b {
            1int
        } else {
            0int
        }),
    decreases marks.len(),
{
    let changed = marks.update(i, b);
    if i == marks.len() - 1 {
        assert(changed.drop_last() =~= marks.drop_last());
    } else {
        assert(changed.drop_last() =~= marks.drop_last().update(i, b));
        lemma_count_update(marks.drop_last(), i, b);
    }
}

/// How many more roles the records could hold if none held more than `cap`.
pub open spec fn room(nodes: Seq<Node>, cap: int) -> int
    decreases nodes.len(),
{
    if nodes.len() == 0 {
        0
    } else {
        room(nodes.drop_last(), cap) + (cap - nodes.last().roles@.len())
    }
}

/// While no record holds more than `cap` roles there is room left, or none.
pub proof fn lemma_room_bounded(nodes: Seq<Node>, cap: int)
    requires
        forall|n: int| 0 <= n < nodes.len() ==> (#[trigger] nodes[n]).roles@.len() <= cap,
    ensures
        room(nodes, cap) >= 0,
    decreases nodes.len(),
{
    if nodes.len() > 0 {
        let shorter = nodes.drop_last();
        assert forall|n: int| 0 <= n < shorter.len() implies (#[trigger] shorter[n]).roles@.len()
            <= cap by {
            assert(shorter[n] == nodes[n]);
        }
        lemma_room_bounded(shorter, cap);
    }
}

/// A record that grows takes up as much of the room as it grows.
pub proof fn lemma_room_update(nodes: Seq<Node>, cap: int, i: int, node: Node)
    requires
        0 <= i < nodes.len(),
    ensures
        room(nodes.update(i, node), cap) == room(nodes, cap) - (node.roles@.len()
            - nodes[i].roles@.len()),
    decreases nodes.len(),
{
    let changed = nodes.update(i, node);
    if i == nodes.len() - 1 {
        assert(changed.drop_last() =~= nodes.drop_last());
    } else {
        assert(changed.drop_last() =~= nodes.drop_last().update(i, node));
        lemma_room_update(nodes.drop_last(), cap, i, node);
    }
}

/// No record that is sound holds more roles than have a subscription.
pub proof fn lemma_sound_bounded(g: &Analysis, subs: &Subscriptions)
    requires
        g.wf(),
        subs.wf(),
        nodes_wf(g),
        sound(g, subs),
    ensures
        forall|n: int| 0 <= n < g.nodes().len() ==> (#[trigger] g.nodes()[n]).roles@.len()
            <= subs.roles().len(),
        room(g.nodes(), subs.roles().len() as int) >= 0,
{
    assert forall|n: int| 0 <= n < g.nodes().len() implies (#[trigger] g.nodes()[n]).roles@.len()
        <= subs.roles().len() by {
        assert(node_at(g, n).wf());
        subs.lemma_of(Seq::empty());
        assert forall|r: Text| roles_at(g, n).contains(r) implies subs.roles().contains(r) by {
            assert(involved_at(g, subs, n, r));
        }
        crate::text::lemma_sorted_subset_len(roles_at(g, n), subs.roles());
    }
    lemma_room_bounded(g.nodes(), subs.roles().len() as int);
}

/// Takes the highest mark that is set, if any is.
fn pop_last(marks: &mut Vec<bool>) -> (taken: Option<usize>)
    ensures
        match taken {
            Some(n) => n < old(marks)@.len() && old(marks)@[n as int] && final(marks)@ == old(
                marks,
            )@.update(n as int, false),
            None => final(marks)@ == old(marks)@ && forall|m: int|
                0 <= m < old(marks)@.len() ==> !(#[trigger] old(marks)@[m]),
        },
{
    let mut i: usize = marks.len();
    while i > 0
        invariant
            i <= marks@.len(),
            marks@ == old(marks)@,
            forall|m: int| i <= m < marks@.len() ==> !(#[trigger] marks@[m]),
        decreases i,
    {
        i -= 1;
        if marks[i] {
            marks.set(i, false);
            return Some(i);
        }
    }
    None
}

/// Replaces the roles recorded as involved at node `v`.
fn widen(graph: &mut Analysis, v: NodeId, roles: NameSet<Role>)
    requires
        old(graph).wf(),
        v < old(graph).shape().nodes,
    ensures
        final(graph).wf(),
        same_structure(final(graph), old(graph)),
        node_at(final(graph), v as int).active@ == node_at(old(graph), v as int).active@,
        node_at(final(graph), v as int).roles@ == roles@,
        final(graph).nodes() == old(graph).nodes().update(v as int, node_at(final(graph), v as int)),
        forall|n: int|
            0 <= n < old(graph).shape().nodes && n != v ==> #[trigger] node_at(final(graph), n)
                == node_at(old(graph), n),
{
    let name = graph.node_weight(v).name.clone();
    let active = graph.node_weight(v).active.duplicate();
    graph.set_node_weight(v, Node { name, active, roles });
}


/// Whether node `n` reaches a node of `done`.
pub open spec fn leads_into(g: &Analysis, done: Set<int>, n: int) -> bool {
    exists|m: int| done.contains(m) && #[trigger] g.shape().connects(n, m)
}

/// Whether nothing is recorded as involved at a node outside `done`, unless
/// the node reaches a node of `done`.
pub open spec fn outside_quiet(g: &Analysis, done: Set<int>) -> bool {
    forall|n: int|
        0 <= n < g.shape().nodes && !done.contains(n) && (#[trigger] roles_at(g, n)).len() > 0
            ==> leads_into(g, done, n)
}

/// Whether two graphs record the same active roles at every node.
pub open spec fn same_active(a: &Analysis, b: &Analysis) -> bool {
    forall|n: int|
        0 <= n < a.shape().nodes ==> (#[trigger] node_at(a, n)).active@ == node_at(b, n).active@
}

/// The second pass of the analysis: hands the roles recorded at each marked
/// node back to its predecessors, and marks every predecessor that grows,
/// until no node is marked.
#[verifier::spinoff_prover]
fn settle(
    graph: &mut Analysis,
    subs: &Subscriptions,
    pending: &mut Vec<bool>,
    Ghost(done): Ghost<Set<int>>,
)
    requires
        old(graph).wf(),
        subs.wf(),
        nodes_wf(old(graph)),
        old(pending)@.len() == old(graph).shape().nodes,
        sound(old(graph), subs),
        forall|v: int|
            #[trigger] done.contains(v) ==> 0 <= v < old(graph).shape().nodes && local_at(
                old(graph),
                subs,
                v,
            ) && active_at(old(graph), v),
        forall|e: int|
            old(graph).shape().has_edge(e) && done.contains(#[trigger] old(graph).source(e))
                ==> settled(old(graph), old(pending)@, e),
        outside_quiet(old(graph), done),
    ensures
        final(graph).wf(),
        same_structure(final(graph), old(graph)),
        nodes_wf(final(graph)),
        sound(final(graph), subs),
        outside_quiet(final(graph), done),
        same_active(final(graph), old(graph)),
        forall|v: int|
            #[trigger] done.contains(v) ==> local_at(final(graph), subs, v) && active_at(
                final(graph),
                v,
            ),
        forall|e: int|
            final(graph).shape().has_edge(e) && done.contains(#[trigger] final(graph).source(e))
                ==> within(
                roles_at(final(graph), final(graph).target(e)),
                roles_at(final(graph), final(graph).source(e)),
            ),
{
    let ghost g0 = *graph;
    let ghost cap = subs.roles().len() as int;
    proof {
        lemma_sound_bounded(graph, subs);
    }
    loop
        invariant
            graph.wf(),
            subs.wf(),
            cap == subs.roles().len(),
            same_structure(graph, &g0),
            nodes_wf(graph),
            pending@.len() == graph.shape().nodes,
            sound(graph, subs),
            outside_quiet(graph, done),
            same_active(graph, &g0),
            room(graph.nodes(), cap) >= 0,
            forall|v: int|
                #[trigger] done.contains(v) ==> 0 <= v < graph.shape().nodes && local_at(
                    graph,
                    subs,
                    v,
                ) && active_at(graph, v),
            forall|e: int|
                graph.shape().has_edge(e) && done.contains(#[trigger] graph.source(e)) ==> settled(
                    graph,
                    pending@,
                    e,
                ),
        ensures
            graph.wf(),
            same_structure(graph, &g0),
            nodes_wf(graph),
            sound(graph, subs),
            outside_quiet(graph, done),
            same_active(graph, &g0),
            forall|v: int|
                #[trigger] done.contains(v) ==> local_at(graph, subs, v) && active_at(graph, v),
            forall|e: int|
                graph.shape().has_edge(e) && done.contains(#[trigger] graph.source(e)) ==> within(
                    roles_at(graph, graph.target(e)),
                    roles_at(graph, graph.source(e)),
                ),
        decreases room(graph.nodes(), cap), count_true(pending@),
    {
        let ghost pending0 = pending@;
        let ghost room0 = room(graph.nodes(), cap);
        let t = match pop_last(pending) {
            Some(t) => t,
            None => {
                break ;
            },
        };
        proof {
            lemma_count_update(pending0, t as int, false);
        }
        let ghost pending1 = pending@;
        let handed = graph.node_weight(t).roles.duplicate();
        let ghost rt = handed@;
        assert(node_at(graph, t as int).wf());
        let mut cursor = Neighbors::new(t);
        assert(cursor.wf(graph)) by {
            let witness: &Multigraph<Node, SwarmLabel> = graph;
            assert(cursor.wf(witness));
        }
        loop
            invariant
                graph.wf(),
                subs.wf(),
                cap == subs.roles().len(),
                same_structure(graph, &g0),
                nodes_wf(graph),
                pending@.len() == graph.shape().nodes,
                sound(graph, subs),
                outside_quiet(graph, done),
                same_active(graph, &g0),
                room(graph.nodes(), cap) >= 0,
                forall|v: int|
                    #[trigger] done.contains(v) ==> 0 <= v < graph.shape().nodes && local_at(
                        graph,
                        subs,
                        v,
                    ) && active_at(graph, v),
                t < graph.shape().nodes,
                handed.wf(),
                handed@ == rt,
                roles_at(graph, t as int) == rt,
                cursor.wf(graph),
                cursor.node() == t,
                forall|x: int|
                    cursor.bound(graph) <= x < graph.shape().edges.len() && #[trigger] graph.target(x)
                        == t ==> within(rt, roles_at(graph, graph.source(x))),
                forall|e: int|
                    graph.shape().has_edge(e) && done.contains(#[trigger] graph.source(e))
                        ==> settled(graph, pending@, e) || graph.target(e) == t,
                room(graph.nodes(), cap) <= room0,
                room(graph.nodes(), cap) == room0 ==> pending@ == pending1,
            ensures
                graph.wf(),
                same_structure(graph, &g0),
                nodes_wf(graph),
                pending@.len() == graph.shape().nodes,
                sound(graph, subs),
                outside_quiet(graph, done),
                same_active(graph, &g0),
                room(graph.nodes(), cap) >= 0,
                forall|v: int|
                    #[trigger] done.contains(v) ==> 0 <= v < graph.shape().nodes && local_at(
                        graph,
                        subs,
                        v,
                    ) && active_at(graph, v),
                forall|e: int|
                    graph.shape().has_edge(e) && done.contains(#[trigger] graph.source(e))
                        ==> settled(graph, pending@, e),
                room(graph.nodes(), cap) <= room0,
                room(graph.nodes(), cap) == room0 ==> pending@ == pending1,
            decreases cursor.bound(graph),
        {
            let ghost before_bound = cursor.bound(graph);
            let p = match cursor.next(graph) {
                Some(p) => p,
                None => {
                    proof {
                        assert forall|e: int|
                            graph.shape().has_edge(e) && done.contains(
                                #[trigger] graph.source(e),
                            ) implies settled(graph, pending@, e) by {
                            if graph.target(e) == t {
                                if e < before_bound {
                                    assert(graph.source(e) == t);
                                }
                            }
                        }
                    }
                    break ;
                },
            };
            let ghost g1 = *graph;
            let ghost edge = cursor.bound(graph);
            let mut roles = graph.node_weight(p).roles.duplicate();
            assert(node_at(graph, p as int).wf());
            let ghost old_roles = roles@;
            let grew = roles.extend(&handed);
            assert(forall|y: Text|
                #![trigger roles@.contains(y)]
                #![trigger old_roles.contains(y)]
                roles@.contains(y) <==> old_roles.contains(y) || handed@.contains(y));
            if grew {
                pending.set(p, true);
                let ghost new_roles = roles@;
                widen(graph, p, roles);
                proof {
                    cursor.lemma_same_shape(&g1, graph);
                    lemma_same_structure(&g1, graph, subs);
                    lemma_room_update(g1.nodes(), cap, p as int, node_at(graph, p as int));
                    assert forall|n: int, r: Text|
                        0 <= n < graph.shape().nodes && #[trigger] roles_at(graph, n).contains(
                            r,
                        ) implies involved_at(graph, subs, n, r) by {
                        if n != p {
                            assert(node_at(graph, n) == node_at(&g1, n));
                            assert(roles_at(&g1, n).contains(r));
                        } else if roles_at(&g1, p as int).contains(r) {
                        } else {
                            assert(rt.contains(r));
                            assert(roles_at(&g1, t as int).contains(r));
                            assert(involved_at(&g1, subs, t as int, r));
                            lemma_involved_back(&g1, subs, edge, r);
                        }
                    }
                    assert forall|n: int| 0 <= n < graph.shape().nodes implies (#[trigger] node_at(
                        graph,
                        n,
                    )).wf() by {
                        if n != p {
                            assert(node_at(graph, n) == node_at(&g1, n));
                        } else {
                            assert(node_at(&g1, n).wf());
                        }
                    }
                    assert forall|v: int| #[trigger] done.contains(v) implies 0 <= v
                        < graph.shape().nodes && local_at(graph, subs, v) && active_at(graph, v) by {
                        assert(local_at(&g1, subs, v));
                        assert(active_at(&g1, v));
                        if v != p {
                            assert(node_at(graph, v) == node_at(&g1, v));
                        }
                        assert forall|e: int, r: Text|
                            graph.shape().has_edge(e) && #[trigger] graph.source(e) == v
                                && subs.roles().contains(r) && #[trigger] observes_any(
                                subs,
                                r,
                                log_of(graph, e),
                            ) implies roles_at(graph, v).contains(r) by {
                            assert(g1.source(e) == v);
                            assert(observes_any(subs, r, log_of(&g1, e)));
                            assert(roles_at(&g1, v).contains(r));
                            if v == p {
                                assert(old_roles.contains(r));
                                assert(new_roles.contains(r));
                            }
                        }
                        assert forall|r: Text| #[trigger]
                            node_at(graph, v).active@.contains(r) <==> acts_at(graph, v, r) by {
                            assert(acts_at(graph, v, r) == acts_at(&g1, v, r));
                            assert(node_at(&g1, v).active@.contains(r) <==> acts_at(&g1, v, r));
                        }
                    }
                    assert(node_at(graph, t as int) == node_at(&g1, t as int));
                    assert forall|x: int|
                        cursor.bound(graph) <= x < graph.shape().edges.len() && #[trigger] graph.target(
                            x,
                        ) == t implies within(rt, roles_at(graph, graph.source(x))) by {
                        let src = graph.source(x);
                        assert(g1.target(x) == t && g1.source(x) == src);
                        if x == edge {
                        } else if x < before_bound {
                            assert(src == t);
                        } else {
                            assert(within(rt, roles_at(&g1, src)));
                            if src != p {
                                assert(node_at(graph, src) == node_at(&g1, src));
                            }
                        }
                    }
                    assert forall|e: int|
                        graph.shape().has_edge(e) && done.contains(
                            #[trigger] graph.source(e),
                        ) implies settled(graph, pending@, e) || graph.target(e) == t by {
                        let src = graph.source(e);
                        let tgt = graph.target(e);
                        assert(g1.source(e) == src && g1.target(e) == tgt);
                        if tgt != t && tgt != p {
                            assert(node_at(graph, tgt) == node_at(&g1, tgt));
                            if src != p {
                                assert(node_at(graph, src) == node_at(&g1, src));
                            }
                        }
                    }
                    assert forall|n: int| 0 <= n < graph.shape().nodes implies (#[trigger] node_at(
                        graph,
                        n,
                    )).active@ == node_at(&g0, n).active@ by {
                        if n != p {
                            assert(node_at(graph, n) == node_at(&g1, n));
                        }
                        assert(node_at(&g1, n).active@ == node_at(&g0, n).active@);
                    }
                    assert forall|n: int|
                        0 <= n < graph.shape().nodes && !done.contains(n) && (#[trigger] roles_at(
                            graph,
                            n,
                        )).len() > 0 implies leads_into(graph, done, n) by {
                        let s = graph.shape();
                        if n != p {
                            assert(node_at(graph, n) == node_at(&g1, n));
                            assert(roles_at(&g1, n).len() > 0);
                            assert(leads_into(&g1, done, n));
                            let m = choose|m: int| done.contains(m) && #[trigger] g1.shape().connects(n, m);
                            assert(s.connects(n, m));
                        } else {
                            assert(s.all()[edge]);
                            assert(s.edges[edge] == (p as int, t as int));
                            assert(s.linked(s.all(), p as int, t as int));
                            crate::graph::lemma_reaches_self(s, s.all(), p as int);
                            crate::graph::lemma_reaches_step(s, s.all(), p as int, p as int, t as int);
                            if done.contains(t as int) {
                                assert(s.connects(p as int, t as int));
                            } else {
                                let y = choose|y: Text| handed@.contains(y) && !old_roles.contains(y);
                                assert(roles_at(&g1, t as int).len() > 0);
                                assert(leads_into(&g1, done, t as int));
                                let m = choose|m: int|
                                    done.contains(m) && #[trigger] g1.shape().connects(t as int, m);
                                crate::graph::lemma_reaches_trans(s, s.all(), p as int, t as int, m);
                                assert(s.connects(p as int, m));
                            }
                        }
                    }
                    lemma_sound_bounded(graph, subs);
                }
            } else {
                proof {
                    assert forall|x: int|
                        cursor.bound(graph) <= x < graph.shape().edges.len() && #[trigger] graph.target(
                            x,
                        ) == t implies within(rt, roles_at(graph, graph.source(x))) by {
                        if x == edge {
                        } else if x < before_bound {
                            assert(graph.source(x) == t);
                        }
                    }
                }
            }
        }
    }
    proof {
        assert forall|e: int|
            graph.shape().has_edge(e) && done.contains(#[trigger] graph.source(e)) implies within(
            roles_at(graph, graph.target(e)),
            roles_at(graph, graph.source(e)),
        ) by {
            assert(settled(graph, pending@, e));
        }
    }
}


/// A finding of the analysis. An edge is named by its number in the graph.
#[derive(Debug, PartialEq, Eq, PartialOrd, Ord)]
pub enum Error {
    /// The initial state occurs in no transition.
    InitialStateDisconnected,
    /// The log of the edge is empty.
    LogTypeEmpty(EdgeId),
    /// The role that acts on the edge observes none of its events.
    ActiveRoleNotSubscribed(EdgeId),
    /// A role that is active at the target of the edge observes none of its
    /// events.
    LaterActiveRoleNotSubscribed(EdgeId, Role),
    /// A role involved after the edge observes events of it that a role
    /// active at its target does not observe.
    LaterInvolvedRoleMoreSubscribed { edge: EdgeId, later: Role, active: Role, events: NameSet<EventType> },
    /// A role involved after the edge does not observe its guard.
    LaterInvolvedNotGuarded(EdgeId, Role),
    /// An edge that is newer and leaves the same node has the same guard.
    NonDeterministicGuard(EdgeId),
    /// An edge that is newer and leaves the same node has the same role and
    /// command.
    NonDeterministicCommand(EdgeId),
    /// The guard occurs in the logs of edges that leave different nodes.
    GuardNotInvariant(EventType),
}

/// The mathematical model of an [`Error`].
pub ghost enum ErrorView {
    InitialStateDisconnected,
    LogTypeEmpty(int),
    ActiveRoleNotSubscribed(int),
    LaterActiveRoleNotSubscribed(int, Text),
    LaterInvolvedRoleMoreSubscribed { edge: int, later: Text, active: Text, events: Seq<Text> },
    LaterInvolvedNotGuarded(int, Text),
    NonDeterministicGuard(int),
    NonDeterministicCommand(int),
    GuardNotInvariant(Text),
}

impl View for Error {
    type V = ErrorView;

    open spec fn view(&self) -> ErrorView {
        match self {
            Error::InitialStateDisconnected => ErrorView::InitialStateDisconnected,
            Error::LogTypeEmpty(e) => ErrorView::LogTypeEmpty(*e as int),
            Error::ActiveRoleNotSubscribed(e) => ErrorView::ActiveRoleNotSubscribed(*e as int),
            Error::LaterActiveRoleNotSubscribed(e, r) => ErrorView::LaterActiveRoleNotSubscribed(
                *e as int,
                r@,
            ),
            Error::LaterInvolvedRoleMoreSubscribed { edge, later, active, events } => {
                ErrorView::LaterInvolvedRoleMoreSubscribed {
                    edge: *edge as int,
                    later: later@,
                    active: active@,
                    events: events@,
                }
            },
            Error::LaterInvolvedNotGuarded(e, r) => ErrorView::LaterInvolvedNotGuarded(*e as int, r@),
            Error::NonDeterministicGuard(e) => ErrorView::NonDeterministicGuard(*e as int),
            Error::NonDeterministicCommand(e) => ErrorView::NonDeterministicCommand(*e as int),
            Error::GuardNotInvariant(ev) => ErrorView::GuardNotInvariant(ev@),
        }
    }
}

/// The models of a list of findings.
pub open spec fn views(errors: Seq<Error>) -> Seq<ErrorView> {
    errors.map_values(|e: Error| e@)
}

/// Where the roles stand after the analysis: at every node that `initial`
/// reaches, the record holds as active exactly the roles that act on an
/// edge that leaves the node, and as involved exactly the roles that
/// observe an event of an edge that leaves a node reached from it.
pub open spec fn analysed(g: &Analysis, subs: &Subscriptions, initial: int) -> bool {
    forall|n: int| #[trigger]
        g.shape().connects(initial, n) ==> {
            &&& node_at(g, n).wf()
            &&& forall|r: Text| #[trigger] node_at(g, n).active@.contains(r) <==> acts_at(g, n, r)
            &&& forall|r: Text| #[trigger] roles_at(g, n).contains(r) <==> involved_at(g, subs, n, r)
        }
}

/// What is recorded at the far end of a path is recorded at its near end,
/// where every edge hands the roles of its target back to its source.
proof fn lemma_flow(g: &Analysis, done: Set<int>, n: int, m: int, k: nat)
    requires
        done.contains(n),
        g.shape().reaches_in(g.shape().all(), n, m, k),
        forall|e: int|
            g.shape().has_edge(e) && done.contains(#[trigger] g.source(e)) ==> done.contains(
                g.target(e),
            ) && within(roles_at(g, g.target(e)), roles_at(g, g.source(e))),
    ensures
        done.contains(m),
        within(roles_at(g, m), roles_at(g, n)),
    decreases k,
{
    if k > 0 {
        let s = g.shape();
        let x = choose|x: int|
            s.reaches_in(s.all(), n, x, (k - 1) as nat) && #[trigger] s.linked(s.all(), x, m);
        lemma_flow(g, done, n, x, (k - 1) as nat);
        let e = choose|e: int| s.has_edge(e) && #[trigger] s.all()[e] && s.edges[e] == (x, m);
        assert(g.source(e) == x && g.target(e) == m);
    }
}

/// The two passes together record at the nodes that `initial` reaches
/// exactly the roles that are involved there.
proof fn lemma_analysed(g: &Analysis, subs: &Subscriptions, initial: int, done: Set<int>)
    requires
        g.wf(),
        nodes_wf(g),
        sound(g, subs),
        forall|n: int| done.contains(n) <==> g.shape().connects(initial, n),
        forall|v: int|
            #[trigger] done.contains(v) ==> 0 <= v < g.shape().nodes && local_at(g, subs, v)
                && active_at(g, v),
        forall|e: int|
            g.shape().has_edge(e) && done.contains(#[trigger] g.source(e)) ==> within(
                roles_at(g, g.target(e)),
                roles_at(g, g.source(e)),
            ),
    ensures
        analysed(g, subs, initial),
{
    let s = g.shape();
    assert forall|e: int| s.has_edge(e) && done.contains(#[trigger] g.source(e)) implies done.contains(
        g.target(e),
    ) && within(roles_at(g, g.target(e)), roles_at(g, g.source(e))) by {
        assert(s.all()[e]);
        assert(s.edges[e] == (g.source(e), g.target(e)));
        assert(s.linked(s.all(), g.source(e), g.target(e)));
        crate::graph::lemma_reaches_step(s, s.all(), initial, g.source(e), g.target(e));
    }
    assert forall|n: int| #[trigger] s.connects(initial, n) implies {
        &&& node_at(g, n).wf()
        &&& forall|r: Text| #[trigger] node_at(g, n).active@.contains(r) <==> acts_at(g, n, r)
        &&& forall|r: Text| #[trigger] roles_at(g, n).contains(r) <==> involved_at(g, subs, n, r)
    } by {
        assert(done.contains(n));
        assert(active_at(g, n));
        assert forall|r: Text| #[trigger] roles_at(g, n).contains(r) <==> involved_at(
            g,
            subs,
            n,
            r,
        ) by {
            if involved_at(g, subs, n, r) {
                let e = choose|e: int|
                    s.has_edge(e) && s.connects(n, #[trigger] g.source(e)) && observes_any(
                        subs,
                        r,
                        log_of(g, e),
                    );
                let m = g.source(e);
                let k = choose|k: nat| s.reaches_in(s.all(), n, m, k);
                lemma_flow(g, done, n, m, k);
                assert(local_at(g, subs, m));
                assert(roles_at(g, m).contains(r));
            }
        }
    }
}


/// The names of the states at both ends of each transition, in the order of
/// the transitions, the source before the target.
pub open spec fn endpoints<L>(ts: Seq<Transition<L>>) -> Seq<Text>
    decreases ts.len(),
{
    if ts.len() == 0 {
        Seq::empty()
    } else {
        endpoints(ts.drop_last()).push(ts.last().source@).push(ts.last().target@)
    }
}

/// The texts of `names` without repetitions, each where it first occurs.
pub open spec fn first_seen(names: Seq<Text>) -> Seq<Text>
    decreases names.len(),
{
    if names.len() == 0 {
        Seq::empty()
    } else {
        let before = first_seen(names.drop_last());
        if before.contains(names.last()) {
            before
        } else {
            before.push(names.last())
        }
    }
}

/// Whether a graph can hold the protocol: it has no more states than a
/// graph has nodes, and no more transitions than a graph has edges.
pub open spec fn loadable<L>(ts: Seq<Transition<L>>) -> bool {
    ts.len() <= MAX_ITEMS && first_seen(endpoints(ts)).len() <= MAX_ITEMS
}

/// The ends of the first transitions are the first of the ends.
pub proof fn lemma_endpoints_take<L>(ts: Seq<Transition<L>>, i: int)
    requires
        0 <= i <= ts.len(),
    ensures
        endpoints(ts).len() == 2 * ts.len(),
        endpoints(ts.take(i)) == endpoints(ts).take(2 * i),
    decreases ts.len(),
{
    if ts.len() == 0 {
        assert(ts.take(i) =~= ts);
        assert(endpoints(ts).take(0) =~= endpoints(ts));
    } else {
        let shorter = ts.drop_last();
        if i == ts.len() {
            lemma_endpoints_take(shorter, 0);
            assert(ts.take(i) =~= ts);
            assert(endpoints(ts).take(2 * i) =~= endpoints(ts));
        } else {
            lemma_endpoints_take(shorter, i);
            assert(ts.take(i) =~= shorter.take(i));
            assert(endpoints(ts).take(2 * i) =~= endpoints(shorter).take(2 * i));
        }
    }
}

/// The first names hold no more different texts than all of them.
pub proof fn lemma_first_seen_grows(names: Seq<Text>, i: int)
    requires
        0 <= i <= names.len(),
    ensures
        first_seen(names.take(i)).len() <= first_seen(names).len(),
    decreases names.len(),
{
    if names.len() == 0 || i == names.len() {
        assert(names.take(i) =~= names);
    } else {
        let shorter = names.drop_last();
        assert(names.take(i) =~= shorter.take(i));
        lemma_first_seen_grows(shorter, i);
    }
}

/// The names of the states of the graph, by node.
pub open spec fn names_of<N: StateName, E>(g: &Multigraph<N, E>) -> Seq<Text> {
    g.nodes().map_values(|n: N| n.name_text())
}

/// Whether the graph is the protocol with the given transitions: its nodes
/// are the states in the order in which the transitions first name them,
/// and its edges are the transitions in their order.
pub open spec fn loaded<N: StateName>(
    g: &Multigraph<N, SwarmLabel>,
    ts: Seq<Transition<SwarmLabel>>,
) -> bool {
    &&& g.wf()
    &&& names_of(g) == first_seen(endpoints(ts))
    &&& g.shape().edges.len() == ts.len()
    &&& forall|e: int|
        0 <= e < ts.len() ==> {
            &&& (#[trigger] g.labels()[e])@ == ts[e].label@
            &&& names_of(g)[g.source(e)] == ts[e].source@
            &&& names_of(g)[g.target(e)] == ts[e].target@
        }
}

/// The findings on empty logs: one for each transition without events, in
/// the order of the transitions.
pub open spec fn empty_logs(ts: Seq<Transition<SwarmLabel>>) -> Seq<ErrorView>
    decreases ts.len(),
{
    if ts.len() == 0 {
        Seq::empty()
    } else {
        let before = empty_logs(ts.drop_last());
        if ts.last().label@.log.len() == 0 {
            before.push(ErrorView::LogTypeEmpty(ts.len() - 1))
        } else {
            before
        }
    }
}

/// The nodes that `initial` reaches.
pub open spec fn reached<N, E>(g: &Multigraph<N, E>, initial: int) -> Set<int> {
    Set::new(|n: int| g.shape().connects(initial, n))
}

/// Whether `ev` is the guard of an edge that leaves a node which `initial`
/// reaches.
pub open spec fn is_guard<N>(g: &Multigraph<N, SwarmLabel>, initial: int, ev: Text) -> bool {
    guards_from(g, reached(g, initial), ev)
}

/// Whether `ev` occurs in the logs of two edges that leave different nodes
/// which `initial` reaches.
pub open spec fn varies<N>(g: &Multigraph<N, SwarmLabel>, initial: int, ev: Text) -> bool {
    clash(g, places_from(g, reached(g, initial)), ev)
}

/// Whether `tail` holds one finding for each guard that varies, and nothing
/// else, in the order of the guards' names.
pub open spec fn guard_findings<N>(
    tail: Seq<ErrorView>,
    g: &Multigraph<N, SwarmLabel>,
    initial: int,
) -> bool {
    &&& forall|i: int| 0 <= i < tail.len() ==> #[trigger] tail[i] is GuardNotInvariant
    &&& forall|i: int, j: int|
        0 <= i < j < tail.len() ==> crate::text::text_lt(
            (#[trigger] tail[i])->GuardNotInvariant_0,
            (#[trigger] tail[j])->GuardNotInvariant_0,
        )
    &&& forall|ev: Text| #[trigger]
        tail.contains(ErrorView::GuardNotInvariant(ev)) <==> is_guard(g, initial, ev) && varies(
            g,
            initial,
            ev,
        )
}

/// Whether nothing is recorded of the roles at node `n`.
pub open spec fn blank(g: &Analysis, n: int) -> bool {
    node_at(g, n).active@.len() == 0 && roles_at(g, n).len() == 0
}

/// The node that stands for state `name`, added to the graph if the state
/// is new.
#[verifier::spinoff_prover]
fn node_for(graph: &mut Analysis, index: &mut NameMap<State, NodeId>, name: &State) -> (n: NodeId)
    requires
        old(graph).wf(),
        old(graph).shape().nodes < MAX_ITEMS || names_of(old(graph)).contains(name@),
        nodes_wf(old(graph)),
        old(index).wf(),
        indexes(old(index), names_of(old(graph))),
    ensures
        final(graph).wf(),
        nodes_wf(final(graph)),
        final(index).wf(),
        indexes(final(index), names_of(final(graph))),
        final(graph).shape().edges == old(graph).shape().edges,
        final(graph).labels() == old(graph).labels(),
        names_of(final(graph)) == if names_of(old(graph)).contains(name@) {
            names_of(old(graph))
        } else {
            names_of(old(graph)).push(name@)
        },
        final(graph).shape().nodes <= old(graph).shape().nodes + 1,
        n < final(graph).shape().nodes,
        names_of(final(graph))[n as int] == name@,
        forall|m: int|
            0 <= m < old(graph).shape().nodes ==> #[trigger] final(graph).nodes()[m] == old(
                graph,
            ).nodes()[m],
        forall|m: int|
            old(graph).shape().nodes <= m < final(graph).shape().nodes ==> #[trigger] blank(
                final(graph),
                m,
            ),
{
    let ghost names = names_of(graph);
    match index.find(name) {
        Some(i) => {
            let n = *index.value(i);
            assert(names.contains(name@));
            n
        },
        None => {
            assert(!names.contains(name@));
            let n = graph.add_node(Node::new(name.clone()));
            index.insert(name.clone(), n);
            proof {
                let after = names_of(graph);
                assert(after =~= names.push(name@));
                assert forall|x: Text| index.has(x) <==> after.contains(x) by {
                    if names.contains(x) {
                        let j = choose|j: int| 0 <= j < names.len() && names[j] == x;
                        assert(after[j] == x);
                    }
                    if x == name@ {
                        assert(after[n as int] == x);
                    }
                    if after.contains(x) {
                        let j = choose|j: int| 0 <= j < after.len() && after[j] == x;
                        if j < names.len() {
                            assert(names[j] == x);
                        }
                    }
                }
                assert forall|j: int| 0 <= j < after.len() implies index.at(#[trigger] after[j])
                    == j by {
                    if j < names.len() {
                        assert(after[j] == names[j]);
                        assert(names.contains(names[j]));
                    }
                }
                assert forall|m: int| 0 <= m < graph.shape().nodes implies (#[trigger] node_at(
                    graph,
                    m,
                )).wf() by {
                    if m < names.len() {
                        assert(node_at(graph, m) == node_at(old(graph), m));
                    }
                }
            }
            n
        },
    }
}

/// Whether `index` finds for each of `names` the position at which it
/// stands, and nothing else.
pub open spec fn indexes(index: &NameMap<State, NodeId>, names: Seq<Text>) -> bool {
    &&& forall|x: Text| index.has(x) <==> names.contains(x)
    &&& forall|j: int| 0 <= j < names.len() ==> index.at(#[trigger] names[j]) == j
}


/// Taking one more transition adds its two ends to the names.
pub proof fn lemma_endpoints_step<L>(ts: Seq<Transition<L>>, i: int)
    requires
        0 <= i < ts.len(),
    ensures
        endpoints(ts.take(i + 1)) == endpoints(ts.take(i)).push(ts[i].source@).push(ts[i].target@),
{
    assert(ts.take(i + 1).drop_last() =~= ts.take(i));
}

/// One more name is a new state, or one that was seen.
pub proof fn lemma_first_seen_step(names: Seq<Text>, x: Text)
    ensures
        first_seen(names.push(x)) == if first_seen(names).contains(x) {
            first_seen(names)
        } else {
            first_seen(names).push(x)
        },
{
    assert(names.push(x).drop_last() =~= names);
}

/// A graph that holds the states in the order in which the transitions
/// first name them, and the transitions as its edges, is the protocol.
pub proof fn lemma_loaded<N: StateName>(
    g: &Multigraph<N, SwarmLabel>,
    ts: Seq<Transition<SwarmLabel>>,
)
    requires
        g.wf(),
        names_of(g) == first_seen(endpoints(ts)),
        g.shape().edges.len() == ts.len(),
        forall|e: int|
            0 <= e < ts.len() ==> {
                &&& (#[trigger] g.labels()[e])@ == ts[e].label@
                &&& names_of(g)[g.source(e)] == ts[e].source@
                &&& names_of(g)[g.target(e)] == ts[e].target@
            },
    ensures
        loaded(g, ts),
{
}

/// Whether a graph can hold the protocol.
pub fn can_load<L>(proto: &Protocol<L>) -> (r: bool)
    ensures
        r == loadable(proto.transitions@),
{
    let ghost ts = proto.transitions@;
    let mut names: NameSet<State> = NameSet::new();
    let mut i: usize = 0;
    proof {
        assert(ts.take(0) =~= Seq::<Transition<L>>::empty());
    }
    while i < proto.transitions.len()
        invariant
            i <= ts.len(),
            ts == proto.transitions@,
            names.wf(),
            names@.len() == first_seen(endpoints(ts.take(i as int))).len(),
            forall|x: Text|
                names@.contains(x) <==> first_seen(endpoints(ts.take(i as int))).contains(x),
        decreases ts.len() - i,
    {
        let t = &proto.transitions[i];
        proof {
            lemma_endpoints_step(ts, i as int);
            let flat = endpoints(ts.take(i as int));
            lemma_first_seen_step(flat, t.source@);
            lemma_first_seen_step(flat.push(t.source@), t.target@);
        }
        let ghost flat = endpoints(ts.take(i as int));
        let ghost seen0 = first_seen(flat);
        let ghost seen1 = first_seen(flat.push(t.source@));
        let ghost seen2 = first_seen(flat.push(t.source@).push(t.target@));
        names.insert(t.source.clone());
        proof {
            assert forall|x: Text| names@.contains(x) <==> seen1.contains(x) by {
                if seen0.contains(x) {
                    let k = choose|k: int| 0 <= k < seen0.len() && seen0[k] == x;
                    assert(seen1[k] == x);
                }
                if x == t.source@ && !seen0.contains(x) {
                    assert(seen1[seen1.len() - 1] == x);
                }
                if seen1.contains(x) && !seen0.contains(x) {
                    let k = choose|k: int| 0 <= k < seen1.len() && seen1[k] == x;
                    if k < seen0.len() {
                        assert(seen0[k] == x);
                    }
                }
            }
        }
        names.insert(t.target.clone());
        proof {
            assert forall|x: Text| names@.contains(x) <==> seen2.contains(x) by {
                if seen1.contains(x) {
                    let k = choose|k: int| 0 <= k < seen1.len() && seen1[k] == x;
                    assert(seen2[k] == x);
                }
                if x == t.target@ && !seen1.contains(x) {
                    assert(seen2[seen2.len() - 1] == x);
                }
                if seen2.contains(x) && !seen1.contains(x) {
                    let k = choose|k: int| 0 <= k < seen2.len() && seen2[k] == x;
                    if k < seen1.len() {
                        assert(seen1[k] == x);
                    }
                }
            }
        }
        i += 1;
    }
    proof {
        assert(ts.take(ts.len() as int) =~= ts);
    }
    proto.transitions.len() <= MAX_ITEMS && names.len() <= MAX_ITEMS
}

/// Builds the graph of the protocol and reports the empty logs.
#[verifier::spinoff_prover]
fn load(proto: &Protocol<SwarmLabel>) -> (r: (Analysis, NameMap<State, NodeId>, Vec<Error>))
    requires
        loadable(proto.transitions@),
    ensures
        loaded(&r.0, proto.transitions@),
        nodes_wf(&r.0),
        r.1.wf(),
        indexes(&r.1, names_of(&r.0)),
        views(r.2@) == empty_logs(proto.transitions@),
        forall|n: int| 0 <= n < r.0.shape().nodes ==> #[trigger] blank(&r.0, n),
{
    let mut errors: Vec<Error> = Vec::new();
    let mut graph: Analysis = Multigraph::new();
    let mut index: NameMap<State, NodeId> = NameMap::new();
    let ghost ts = proto.transitions@;
    let mut i: usize = 0;
    proof {
        assert(ts.take(0) =~= Seq::<Transition<SwarmLabel>>::empty());
        assert(names_of(&graph) =~= Seq::<Text>::empty());
        assert(views(errors@) =~= Seq::<ErrorView>::empty());
    }
    while i < proto.transitions.len()
        invariant
            i <= ts.len(),
            ts == proto.transitions@,
            loadable(ts),
            graph.wf(),
            nodes_wf(&graph),
            index.wf(),
            indexes(&index, names_of(&graph)),
            graph.shape().edges.len() == i,
            names_of(&graph) == first_seen(endpoints(ts.take(i as int))),
            forall|e: int|
                0 <= e < i ==> {
                    &&& (#[trigger] graph.labels()[e])@ == ts[e].label@
                    &&& names_of(&graph)[graph.source(e)] == ts[e].source@
                    &&& names_of(&graph)[graph.target(e)] == ts[e].target@
                },
            views(errors@) == empty_logs(ts.take(i as int)),
            forall|n: int| 0 <= n < graph.shape().nodes ==> #[trigger] blank(&graph, n),
        decreases ts.len() - i,
    {
        let t = &proto.transitions[i];
        let ghost g1 = graph;
        let ghost names1 = names_of(&graph);
        proof {
            let flat = endpoints(ts);
            lemma_endpoints_take(ts, i as int);
            lemma_endpoints_take(ts, i + 1);
            lemma_endpoints_step(ts, i as int);
            let flat1 = endpoints(ts.take(i as int));
            lemma_first_seen_step(flat1, ts[i as int].source@);
            lemma_first_seen_step(flat1.push(ts[i as int].source@), ts[i as int].target@);
            assert(flat.take(2 * i + 1) =~= flat1.push(ts[i as int].source@)) by {
                assert(flat.take(2 * i + 2) == flat1.push(ts[i as int].source@).push(
                    ts[i as int].target@,
                ));
                assert(flat.take(2 * i + 1) =~= flat.take(2 * i + 2).take(2 * i + 1));
            }
            lemma_first_seen_grows(flat, 2 * i + 1);
            lemma_first_seen_grows(flat, 2 * i + 2);
            assert(names_of(&graph).len() == graph.shape().nodes);
        }
        let source = node_for(&mut graph, &mut index, &t.source);
        let ghost g2 = graph;
        let ghost names2 = names_of(&graph);
        proof {
            assert(names2.len() == graph.shape().nodes);
        }
        let target = node_for(&mut graph, &mut index, &t.target);
        let ghost g3 = graph;
        let ghost names3 = names_of(&graph);
        let edge = graph.add_edge(source, target, t.label.clone());
        let ghost old_errors = views(errors@);
        if t.label.log_type.len() == 0 {
            errors.push(Error::LogTypeEmpty(edge));
        }
        proof {
            assert(names_of(&graph) =~= names3);
            lemma_endpoints_step(ts, i as int);
            let flat1 = endpoints(ts.take(i as int));
            lemma_first_seen_step(flat1, ts[i as int].source@);
            lemma_first_seen_step(flat1.push(ts[i as int].source@), ts[i as int].target@);
            assert(names3[source as int] == names2[source as int]);
            assert forall|e: int| 0 <= e < i + 1 implies {
                &&& (#[trigger] graph.labels()[e])@ == ts[e].label@
                &&& names_of(&graph)[graph.source(e)] == ts[e].source@
                &&& names_of(&graph)[graph.target(e)] == ts[e].target@
            } by {
                if e < i {
                    assert(graph.labels()[e] == g1.labels()[e]);
                    assert(graph.source(e) == g1.source(e));
                    assert(graph.target(e) == g1.target(e));
                    assert(0 <= g1.source(e) < names1.len());
                    assert(0 <= g1.target(e) < names1.len());
                    assert(names2[g1.source(e)] == names1[g1.source(e)]);
                    assert(names3[g1.source(e)] == names2[g1.source(e)]);
                    assert(names2[g1.target(e)] == names1[g1.target(e)]);
                    assert(names3[g1.target(e)] == names2[g1.target(e)]);
                }
            }
            assert(ts.take(i + 1).drop_last() =~= ts.take(i as int));
            assert(texts(t.label.log_type@).len() == t.label.log_type@.len());
            if t.label.log_type@.len() == 0 {
                assert(views(errors@) =~= old_errors.push(ErrorView::LogTypeEmpty(i as int)));
            }
            assert forall|n: int| 0 <= n < graph.shape().nodes implies #[trigger] blank(
                &graph,
                n,
            ) by {
                assert(graph.nodes()[n] == g3.nodes()[n]);
                if n < g2.shape().nodes {
                    assert(g3.nodes()[n] == g2.nodes()[n]);
                    if n < g1.shape().nodes {
                        assert(g2.nodes()[n] == g1.nodes()[n]);
                        assert(blank(&g1, n));
                    } else {
                        assert(blank(&g2, n));
                    }
                } else {
                    assert(blank(&g3, n));
                }
            }
            assert forall|n: int| 0 <= n < graph.shape().nodes implies (#[trigger] node_at(
                &graph,
                n,
            )).wf() by {
                assert(node_at(&graph, n) == node_at(&g3, n));
            }
        }
        i += 1;
    }
    proof {
        assert(ts.take(ts.len() as int) =~= ts);
        lemma_loaded(&graph, ts);
    }
    (graph, index, errors)
}


/// A list of `n` marks, none of them set.
fn no_marks(n: usize) -> (marks: Vec<bool>)
    ensures
        marks@.len() == n,
        forall|i: int| 0 <= i < n ==> !(#[trigger] marks@[i]),
{
    let mut marks: Vec<bool> = Vec::new();
    while marks.len() < n
        invariant
            marks@.len() <= n,
            forall|i: int| 0 <= i < marks@.len() ==> !(#[trigger] marks@[i]),
        decreases n - marks@.len(),
    {
        marks.push(false);
    }
    marks
}

/// Whether the analysis has left alone the states that the initial state
/// does not reach: no role is recorded as active at such a state, and none
/// as involved unless the state reaches one that the initial state reaches.
/// Without an initial node nothing is recorded at any state.
pub open spec fn idle(g: &Analysis, initial: Option<int>) -> bool {
    forall|n: int|
        0 <= n < g.shape().nodes && !(initial is Some && g.shape().connects(initial->0, n)) ==> {
            &&& (#[trigger] node_at(g, n)).active@.len() == 0
            &&& roles_at(g, n).len() > 0 ==> initial is Some && leads_into(
                g,
                reached(g, initial->0),
                n,
            )
        }
}

/// The number of a node as a mathematical integer.
pub open spec fn node_number(node: Option<NodeId>) -> Option<int> {
    match node {
        Some(i) => Some(i as int),
        None => None,
    }
}

/// Loads the protocol into a graph and analyses it: records at every state
/// that the initial state reaches the active and the involved roles.
///
/// The findings are the empty logs, in the order of the transitions, and
/// then either the missing initial state or the guards that occur in the
/// logs of several states, in the order of their names. The initial node
/// is returned where the initial state occurs in a transition; an empty
/// log does not stop the analysis. A role recorded as involved at a state
/// is involved there, also where the initial state does not reach the
/// state.
#[verifier::spinoff_prover]
pub fn prepare_graph(proto: Protocol<SwarmLabel>, subs: &Subscriptions) -> (r: (
    Analysis,
    Option<NodeId>,
    Vec<Error>,
))
    requires
        subs.wf(),
        loadable(proto.transitions@),
    ensures
        loaded(&r.0, proto.transitions@),
        nodes_wf(&r.0),
        match r.1 {
            Some(i) => i < r.0.shape().nodes && names_of(&r.0)[i as int] == proto.initial@,
            None => !names_of(&r.0).contains(proto.initial@),
        },
        forall|i: int|
            0 <= i < r.0.shape().nodes && #[trigger] names_of(&r.0)[i] == proto.initial@
                ==> analysed(&r.0, subs, i),
        sound(&r.0, subs),
        idle(&r.0, node_number(r.1)),
        prepared(views(r.2@), &r.0, proto.transitions@, proto.initial@),
{
    let (mut graph, index, mut errors) = load(&proto);
    let ghost ts = proto.transitions@;
    let ghost head = empty_logs(ts);
    let ghost names = names_of(&graph);
    let ghost g0 = graph;
    let initial = match index.find(&proto.initial) {
        Some(i) => *index.value(i),
        None => {
            errors.push(Error::InitialStateDisconnected);
            proof {
                assert(views(errors@) =~= head.push(ErrorView::InitialStateDisconnected));
                assert(views(errors@).take(head.len() as int) =~= head);
                assert(views(errors@).skip(head.len() as int) =~= seq![
                    ErrorView::InitialStateDisconnected,
                ]);
                assert forall|n: int, r: Text|
                    0 <= n < graph.shape().nodes && #[trigger] roles_at(&graph, n).contains(
                        r,
                    ) implies involved_at(&graph, subs, n, r) by {
                    assert(blank(&graph, n));
                }
                assert forall|n: int| 0 <= n < graph.shape().nodes implies (#[trigger] node_at(
                    &graph,
                    n,
                )).active@.len() == 0 && roles_at(&graph, n).len() == 0 by {
                    assert(blank(&graph, n));
                }
            }
            return (graph, None, errors);
        },
    };
    proof {
        assert(names[initial as int] == proto.initial@);
        assert(names.contains(proto.initial@));
        assert forall|i: int| 0 <= i < names.len() && #[trigger] names[i] == proto.initial@ implies i
            == initial by {
            assert(index.at(names[i]) == i);
        }
    }
    let keep = graph.every_edge();
    let order = graph.dfs_post_order(&keep, initial);
    let mut guards: NameSet<EventType> = NameSet::new();
    let mut events: NameMap<EventType, Variance> = NameMap::new();
    let mut pending = no_marks(graph.node_count());
    proof {
        assert forall|n: int| 0 <= n < graph.shape().nodes implies (#[trigger] roles_at(
            &graph,
            n,
        )).len() == 0 by {
            assert(blank(&graph, n));
        }
    }
    first_pass(&mut graph, &order, subs, &mut pending, &mut guards, &mut events);
    let ghost g1 = graph;
    let ghost done = picked(order@, order@.len() as int);
    let ghost seen = places_from(&g1, done);
    proof {
        assert forall|n: int| done.contains(n) <==> g1.shape().connects(initial as int, n) by {
            if g1.shape().connects(initial as int, n) {
                assert(order@.contains(n as usize));
                let i = choose|i: int| 0 <= i < order@.len() && order@[i] == n as usize;
                assert(order@[i] == n);
            }
        }
        assert(done =~= reached(&g1, initial as int));
        assert forall|v: int| #[trigger] done.contains(v) implies 0 <= v < g1.shape().nodes
            && local_at(&g1, subs, v) && active_at(&g1, v) by {
            let i = choose|i: int|
                0 <= i < order@.len() && i < order@.len() && #[trigger] order@[i] == v;
            assert(local_at(&g1, subs, order@[i] as int));
        }
    }
    proof {
        assert forall|n: int|
            0 <= n < g1.shape().nodes && !done.contains(n) && (#[trigger] roles_at(&g1, n)).len()
                > 0 implies leads_into(&g1, done, n) by {
            assert(node_at(&g1, n) == node_at(&g0, n));
            assert(blank(&g0, n));
        }
    }
    settle(&mut graph, subs, &mut pending, Ghost(done));
    proof {
        assert forall|n: int|
            0 <= n < graph.shape().nodes && !graph.shape().connects(initial as int, n) implies {
            &&& (#[trigger] node_at(&graph, n)).active@.len() == 0
            &&& roles_at(&graph, n).len() > 0 ==> leads_into(
                &graph,
                reached(&graph, initial as int),
                n,
            )
        } by {
            assert(!done.contains(n));
            assert(node_at(&g1, n) == node_at(&g0, n));
            assert(blank(&g0, n));
            assert(node_at(&graph, n).active@ == node_at(&g1, n).active@);
            if roles_at(&graph, n).len() > 0 {
                assert(leads_into(&graph, done, n));
                let m = choose|m: int| done.contains(m) && #[trigger] graph.shape().connects(n, m);
                assert(g1.shape().connects(initial as int, m));
                assert(reached(&graph, initial as int).contains(m));
            }
        }
    }
    proof {
        lemma_same_structure(&g1, &graph, subs);
        lemma_tracks_same(&g1, &graph, subs, &events, seen);
        assert(seen =~= places_from(&graph, done));
        assert(done =~= reached(&graph, initial as int));
        lemma_analysed(&graph, subs, initial as int, done);
        assert(names_of(&graph) =~= names);
        assert forall|e: int| 0 <= e < ts.len() implies {
            &&& (#[trigger] graph.labels()[e])@ == ts[e].label@
            &&& names_of(&graph)[graph.source(e)] == ts[e].source@
            &&& names_of(&graph)[graph.target(e)] == ts[e].target@
        } by {
            assert(g0.labels()[e]@ == ts[e].label@);
        }
        assert(loaded(&graph, ts));
        assert(views(errors@) == head);
    }
    let mut i: usize = 0;
    while i < guards.len()
        invariant
            i <= guards@.len(),
            guards.wf(),
            events.wf(),
            views(errors@).len() >= head.len(),
            views(errors@).take(head.len() as int) == head,
            forall|k: int|
                0 <= k < views(errors@).skip(head.len() as int).len() ==> #[trigger] views(
                    errors@,
                ).skip(head.len() as int)[k] is GuardNotInvariant,
            forall|k: int|
                #![trigger views(errors@).skip(head.len() as int)[k]]
                0 <= k < views(errors@).skip(head.len() as int).len() ==> exists|j: int|
                    0 <= j < i && #[trigger] guards@[j] == views(errors@).skip(
                        head.len() as int,
                    )[k]->GuardNotInvariant_0,
            forall|a: int, b: int|
                0 <= a < b < views(errors@).skip(head.len() as int).len() ==> crate::text::text_lt(
                    (#[trigger] views(errors@).skip(head.len() as int)[a])->GuardNotInvariant_0,
                    (#[trigger] views(errors@).skip(head.len() as int)[b])->GuardNotInvariant_0,
                ),
            forall|ev: Text| #[trigger]
                views(errors@).skip(head.len() as int).contains(ErrorView::GuardNotInvariant(ev))
                    <==> (exists|j: int| 0 <= j < i && #[trigger] guards@[j] == ev) && events.has(ev)
                    && events.at(ev) is Variant,
        decreases guards@.len() - i,
    {
        let guard = guards.get(i);
        let ghost before = views(errors@);
        let ghost tail0 = before.skip(head.len() as int);
        let variant = match events.find(guard) {
            Some(j) => events.value(j).is_variant(),
            None => false,
        };
        if variant {
            errors.push(Error::GuardNotInvariant(guard.clone()));
        }
        proof {
            let ev0 = guards@[i as int];
            let tail = views(errors@).skip(head.len() as int);
            if variant {
                assert(views(errors@) =~= before.push(ErrorView::GuardNotInvariant(ev0)));
                assert(tail =~= tail0.push(ErrorView::GuardNotInvariant(ev0)));
                assert(views(errors@).take(head.len() as int) =~= before.take(head.len() as int));
                assert forall|a: int, b: int| 0 <= a < b < tail.len() implies crate::text::text_lt(
                    (#[trigger] tail[a])->GuardNotInvariant_0,
                    (#[trigger] tail[b])->GuardNotInvariant_0,
                ) by {
                    if b == tail.len() - 1 {
                        assert(tail[a] == tail0[a]);
                        let j = choose|j: int|
                            0 <= j < i && #[trigger] guards@[j] == tail0[a]->GuardNotInvariant_0;
                        assert(crate::text::text_lt(guards@[j], guards@[i as int]));
                    } else {
                        assert(tail[a] == tail0[a]);
                        assert(tail[b] == tail0[b]);
                    }
                }
                assert forall|k: int|
                    #![trigger tail[k]]
                    0 <= k < tail.len() implies exists|j: int|
                    0 <= j < i + 1 && #[trigger] guards@[j] == tail[k]->GuardNotInvariant_0 by {
                    if k < tail0.len() {
                        assert(tail[k] == tail0[k]);
                        let j = choose|j: int|
                            0 <= j < i && #[trigger] guards@[j] == tail0[k]->GuardNotInvariant_0;
                        assert(0 <= j < i + 1);
                    } else {
                        assert(guards@[i as int] == ev0);
                    }
                }
            } else {
                assert(tail =~= tail0);
                assert forall|k: int|
                    #![trigger tail[k]]
                    0 <= k < tail.len() implies exists|j: int|
                    0 <= j < i + 1 && #[trigger] guards@[j] == tail[k]->GuardNotInvariant_0 by {
                    let j = choose|j: int|
                        0 <= j < i && #[trigger] guards@[j] == tail0[k]->GuardNotInvariant_0;
                    assert(0 <= j < i + 1);
                }
            }
            assert forall|ev: Text| #[trigger]
                tail.contains(ErrorView::GuardNotInvariant(ev)) <==> (exists|j: int|
                    0 <= j < i + 1 && #[trigger] guards@[j] == ev) && events.has(ev) && events.at(
                    ev,
                ) is Variant by {
                let item = ErrorView::GuardNotInvariant(ev);
                if tail0.contains(item) {
                    let k = choose|k: int| 0 <= k < tail0.len() && tail0[k] == item;
                    assert(tail[k] == item);
                    let j = choose|j: int| 0 <= j < i && #[trigger] guards@[j] == ev;
                    assert(0 <= j < i + 1);
                }
                if tail.contains(item) && !tail0.contains(item) {
                    let k = choose|k: int| 0 <= k < tail.len() && tail[k] == item;
                    if k < tail0.len() {
                        assert(tail0[k] == item);
                    }
                    assert(ev == ev0);
                    assert(guards@[i as int] == ev);
                }
                if (exists|j: int| 0 <= j < i + 1 && #[trigger] guards@[j] == ev) && events.has(ev)
                    && events.at(ev) is Variant {
                    let j = choose|j: int| 0 <= j < i + 1 && #[trigger] guards@[j] == ev;
                    if j < i {
                        assert(tail0.contains(item));
                    } else {
                        assert(variant);
                        assert(tail[tail.len() - 1] == item);
                    }
                }
            }
        }
        i += 1;
    }
    proof {
        let tail = views(errors@).skip(head.len() as int);
        assert forall|ev: Text| #[trigger]
            tail.contains(ErrorView::GuardNotInvariant(ev)) <==> is_guard(&graph, initial as int, ev)
                && varies(&graph, initial as int, ev) by {
            lemma_varies(&graph, &events, seen, ev);
            assert(guards_from(&graph, done, ev) == guards_from(&g1, done, ev));
            if guards@.contains(ev) {
                let j = choose|j: int| 0 <= j < guards@.len() && guards@[j] == ev;
                assert(guards@[j] == ev);
            }
        }
        assert(guard_findings(tail, &graph, initial as int));
    }
    (graph, Some(initial), errors)
}

/// An event type is recorded as variant exactly when it stands at two
/// places whose edges leave different nodes.
proof fn lemma_varies(
    g: &Analysis,
    events: &NameMap<EventType, Variance>,
    seen: Set<(int, int)>,
    ev: Text,
)
    requires
        tracks(g, events, seen),
    ensures
        (events.has(ev) && events.at(ev) is Variant) <==> clash(g, seen, ev),
{
    if clash(g, seen, ev) {
        let (a, b) = choose|a: (int, int), b: (int, int)|
            #![trigger seen.contains(a), seen.contains(b)]
            seen.contains(a) && seen.contains(b) && occurs(g, a, ev) && occurs(g, b, ev) && g.source(
                a.0,
            ) != g.source(b.0);
        assert(seen.contains(a) && occurs(g, a, ev));
        assert(seen.contains(b) && occurs(g, b, ev));
        assert(events.has(ev));
    }
}


/// The protocol of the analysis as a graph of named states.
#[verifier::spinoff_prover]
fn to_swarm(graph: &Analysis) -> (swarm: SwarmGraph)
    requires
        graph.wf(),
    ensures
        swarm.wf(),
        crate::transfer::same_protocol(graph, &swarm),
        names_of(&swarm) == names_of(graph),
{
    let mut swarm: SwarmGraph = Multigraph::new();
    let mut n: usize = 0;
    while n < graph.node_count()
        invariant
            graph.wf(),
            swarm.wf(),
            n <= graph.shape().nodes,
            swarm.shape().nodes == n,
            swarm.shape().edges.len() == 0,
            swarm.labels().len() == 0,
            forall|k: int| 0 <= k < n ==> (#[trigger] swarm.nodes()[k])@ == graph.nodes()[k].name@,
        decreases graph.shape().nodes - n,
    {
        swarm.add_node(graph.node_weight(n).name.clone());
        n += 1;
    }
    let mut e: usize = 0;
    while e < graph.edge_count()
        invariant
            graph.wf(),
            swarm.wf(),
            e <= graph.shape().edges.len(),
            swarm.shape().nodes == graph.shape().nodes,
            swarm.shape().edges == graph.shape().edges.take(e as int),
            swarm.labels().len() == e,
            forall|k: int| 0 <= k < e ==> (#[trigger] swarm.labels()[k])@ == graph.labels()[k]@,
            forall|k: int|
                0 <= k < graph.shape().nodes ==> (#[trigger] swarm.nodes()[k])@ == graph.nodes()[k].name@,
        decreases graph.shape().edges.len() - e,
    {
        let ends = graph.edge_endpoints(e).unwrap();
        let label = graph.edge_weight(e).clone();
        swarm.add_edge(ends.0, ends.1, label);
        proof {
            assert(graph.shape().edges[e as int] == (ends.0 as int, ends.1 as int));
            assert(swarm.shape().edges =~= graph.shape().edges.take(e + 1));
        }
        e += 1;
    }
    proof {
        assert(graph.shape().edges.take(graph.shape().edges.len() as int) =~= graph.shape().edges);
        assert(swarm.shape() == graph.shape());
        assert(names_of(&swarm) =~= names_of(graph));
        assert forall|k: int| 0 <= k < graph.labels().len() implies (#[trigger] graph.labels()[k])@
            == swarm.labels()[k]@ by {
            assert(swarm.labels()[k]@ == graph.labels()[k]@);
        }
    }
    swarm
}

/// Whether `all` is made of the findings on empty logs, then one finding
/// for each guard that varies, and then the findings on the transitions
/// that node `i` reaches, each once and in the order of the checks.
pub open spec fn check_findings<N>(
    all: Seq<ErrorView>,
    g: &Multigraph<N, SwarmLabel>,
    subs: &Subscriptions,
    i: int,
    head: Seq<ErrorView>,
    cut: int,
) -> bool {
    &&& head.len() <= cut <= all.len()
    &&& all.take(head.len() as int) == head
    &&& guard_findings(all.subrange(head.len() as int, cut), g, i)
    &&& all.skip(cut).no_duplicates()
    &&& forall|m: ErrorView|
        #[trigger] all.skip(cut).contains(m) <==> crate::wellformed::violation(g, subs, i, m)
    &&& crate::wellformed::in_order(g, i, all.skip(cut))
}

/// Whether `all` is what checking the protocol finds.
pub open spec fn check_result<N: StateName>(
    all: Seq<ErrorView>,
    g: &Multigraph<N, SwarmLabel>,
    subs: &Subscriptions,
    ts: Seq<Transition<SwarmLabel>>,
    start: Text,
) -> bool {
    &&& !names_of(g).contains(start) ==> all == empty_logs(ts).push(ErrorView::InitialStateDisconnected)
    &&& forall|i: int|
        0 <= i < g.shape().nodes && #[trigger] names_of(g)[i] == start ==> exists|cut: int|
            check_findings(all, g, subs, i, empty_logs(ts), cut)
}

/// Loads the protocol, analyses it and checks it for well-formedness.
///
/// The findings are those of loading and analysing the protocol, followed,
/// where the initial state occurs in a transition, by the findings on the
/// transitions that the initial state reaches. Only a missing initial state
/// stops the checks; a transition without events is reported and takes no
/// further part in them. The findings on the transitions stand in the
/// order of [`well_formed`].
#[verifier::spinoff_prover]
pub fn check(proto: Protocol<SwarmLabel>, subs: &Subscriptions) -> (r: (
    SwarmGraph,
    Option<NodeId>,
    Vec<Error>,
))
    requires
        subs.wf(),
        loadable(proto.transitions@),
    ensures
        loaded(&r.0, proto.transitions@),
        match r.1 {
            Some(i) => i < r.0.shape().nodes && names_of(&r.0)[i as int] == proto.initial@,
            None => !names_of(&r.0).contains(proto.initial@),
        },
        check_result(views(r.2@), &r.0, subs, proto.transitions@, proto.initial@),
{
    let ghost ts = proto.transitions@;
    let ghost start = proto.initial@;
    let ghost head = empty_logs(ts);
    let (graph, initial, mut errors) = prepare_graph(proto, subs);
    let ghost prepared = views(errors@);
    let swarm = to_swarm(&graph);
    proof {
        assert forall|e: int| 0 <= e < ts.len() implies {
            &&& (#[trigger] swarm.labels()[e])@ == ts[e].label@
            &&& names_of(&swarm)[swarm.source(e)] == ts[e].source@
            &&& names_of(&swarm)[swarm.target(e)] == ts[e].target@
        } by {
            assert(graph.labels()[e]@ == ts[e].label@);
            assert(graph.source(e) == swarm.source(e));
        }
        assert(loaded(&swarm, ts));
        if !names_of(&graph).contains(start) {
            assert(prepared =~= prepared.take(head.len() as int) + prepared.skip(head.len() as int));
            assert(prepared =~= head.push(ErrorView::InitialStateDisconnected));
        }
    }
    match initial {
        None => {
            proof {
                assert forall|i: int|
                    0 <= i < swarm.shape().nodes && #[trigger] names_of(&swarm)[i] == start implies exists|
                    cut: int,
                |
                    check_findings(views(errors@), &swarm, subs, i, head, cut) by {
                    assert(names_of(&graph)[i] == start);
                    assert(names_of(&graph).contains(start));
                }
            }
        },
        Some(i) => {
            let mut found = crate::wellformed::well_formed(&graph, i, subs);
            let ghost later = views(found@);
            errors.append(&mut found);
            proof {
                let all = views(errors@);
                let cut = prepared.len() as int;
                assert(all =~= prepared + later);
                assert(all.take(head.len() as int) =~= prepared.take(head.len() as int));
                assert(all.subrange(head.len() as int, cut) =~= prepared.skip(head.len() as int));
                assert(all.skip(cut) =~= later);
                crate::transfer::lemma_same_guards(&graph, &swarm, subs, i as int);
                crate::transfer::lemma_same_findings(&graph, &swarm, subs, i as int);
                crate::transfer::lemma_same_order(&graph, &swarm, i as int, later);
                assert(names_of(&graph)[i as int] == start);
                assert(guard_findings(prepared.skip(head.len() as int), &graph, i as int));
                assert(check_findings(all, &swarm, subs, i as int, head, cut));
                assert forall|j: int|
                    0 <= j < swarm.shape().nodes && #[trigger] names_of(&swarm)[j] == start implies exists|
                    cut: int,
                |
                    check_findings(views(errors@), &swarm, subs, j, head, cut) by {
                    lemma_names_distinct(&graph, ts, i as int, j);
                }
            }
        },
    }
    let ghost all = views(errors@);
    let ghost g = swarm;
    assert(forall|i: int|
        0 <= i < g.shape().nodes && #[trigger] names_of(&g)[i] == start ==> exists|cut: int|
            check_findings(all, &g, subs, i, head, cut));
    let r = (swarm, initial, errors);
    assert forall|i: int|
        0 <= i < r.0.shape().nodes && #[trigger] names_of(&r.0)[i] == proto.initial@ implies exists|
        cut: int,
    |
        check_findings(views(r.2@), &r.0, subs, i, empty_logs(proto.transitions@), cut) by {
        assert(names_of(&g)[i] == start);
        let cut = choose|cut: int| check_findings(all, &g, subs, i, head, cut);
        assert(check_findings(views(r.2@), &r.0, subs, i, empty_logs(proto.transitions@), cut));
    }
    r
}

/// The states of a loaded protocol have different names.
pub proof fn lemma_names_distinct<N: StateName>(
    g: &Multigraph<N, SwarmLabel>,
    ts: Seq<Transition<SwarmLabel>>,
    i: int,
    j: int,
)
    requires
        loaded(g, ts),
        0 <= i < names_of(g).len(),
        0 <= j < names_of(g).len(),
        names_of(g)[i] == names_of(g)[j],
    ensures
        i == j,
{
    lemma_first_seen_distinct(endpoints(ts));
}

/// No text occurs twice among those first seen.
pub proof fn lemma_first_seen_distinct(names: Seq<Text>)
    ensures
        first_seen(names).no_duplicates(),
    decreases names.len(),
{
    if names.len() > 0 {
        lemma_first_seen_distinct(names.drop_last());
    }
}


/// Every finding on empty logs is of that kind.
pub proof fn lemma_empty_logs_kind(ts: Seq<Transition<SwarmLabel>>)
    ensures
        forall|i: int| 0 <= i < empty_logs(ts).len() ==> #[trigger] empty_logs(ts)[i] is LogTypeEmpty,
    decreases ts.len(),
{
    if ts.len() > 0 {
        lemma_empty_logs_kind(ts.drop_last());
    }
}

/// Whether `all` is what loading and analysing the protocol finds: the
/// empty logs, in the order of the transitions, and then either the missing
/// initial state or one finding for each guard that varies.
pub open spec fn prepared<N: StateName>(
    all: Seq<ErrorView>,
    g: &Multigraph<N, SwarmLabel>,
    ts: Seq<Transition<SwarmLabel>>,
    start: Text,
) -> bool {
    &&& all.len() >= empty_logs(ts).len()
    &&& all.take(empty_logs(ts).len() as int) == empty_logs(ts)
    &&& !names_of(g).contains(start) ==> all.skip(empty_logs(ts).len() as int) == seq![
        ErrorView::InitialStateDisconnected,
    ]
    &&& forall|i: int|
        0 <= i < g.shape().nodes && #[trigger] names_of(g)[i] == start ==> guard_findings(
            all.skip(empty_logs(ts).len() as int),
            g,
            i,
        )
}

/// Whether `messages` are the findings `all` put into words.
pub open spec fn rendered<N: StateName>(
    messages: Seq<String>,
    g: &Multigraph<N, SwarmLabel>,
    all: Seq<ErrorView>,
) -> bool {
    &&& messages.len() == all.len()
    &&& forall|k: int|
        0 <= k < all.len() ==> (#[trigger] messages[k])@ == crate::report::error_text(g, all[k])
}

/// Loads and analyses the protocol and puts the findings into words.
///
/// The findings are those of [`prepare_graph`], each as its message.
#[verifier::spinoff_prover]
pub fn from_json(proto: Protocol<SwarmLabel>, subs: &Subscriptions) -> (r: (
    SwarmGraph,
    Option<NodeId>,
    Vec<String>,
))
    requires
        subs.wf(),
        loadable(proto.transitions@),
    ensures
        loaded(&r.0, proto.transitions@),
        match r.1 {
            Some(i) => i < r.0.shape().nodes && names_of(&r.0)[i as int] == proto.initial@,
            None => !names_of(&r.0).contains(proto.initial@),
        },
        exists|all: Seq<ErrorView>|
            #![trigger rendered(r.2@, &r.0, all)]
            prepared(all, &r.0, proto.transitions@, proto.initial@) && rendered(r.2@, &r.0, all),
{
    let ghost ts = proto.transitions@;
    let ghost start = proto.initial@;
    let ghost head = empty_logs(ts);
    let (graph, initial, errors) = prepare_graph(proto, subs);
    let ghost found = views(errors@);
    let swarm = to_swarm(&graph);
    proof {
        lemma_empty_logs_kind(ts);
        assert forall|e: int| 0 <= e < ts.len() implies {
            &&& (#[trigger] swarm.labels()[e])@ == ts[e].label@
            &&& names_of(&swarm)[swarm.source(e)] == ts[e].source@
            &&& names_of(&swarm)[swarm.target(e)] == ts[e].target@
        } by {
            assert(graph.labels()[e]@ == ts[e].label@);
            assert(graph.source(e) == swarm.source(e));
        }
        assert(loaded(&swarm, ts));
        assert forall|i: int| 0 <= i < found.len() implies crate::report::renderable(
            &swarm,
            #[trigger] found[i],
        ) by {
            if i < head.len() {
                assert(found.take(head.len() as int)[i] == found[i]);
            } else {
                let tail = found.skip(head.len() as int);
                assert(tail[i - head.len()] == found[i]);
                if names_of(&graph).contains(start) {
                    let j = choose|j: int| 0 <= j < names_of(&graph).len() && names_of(&graph)[j] == start;
                    assert(names_of(&graph)[j] == start);
                    assert(guard_findings(tail, &graph, j));
                }
            }
        }
        assert forall|i: int|
            0 <= i < swarm.shape().nodes && #[trigger] names_of(&swarm)[i] == start implies guard_findings(
            found.skip(head.len() as int),
            &swarm,
            i,
        ) by {
            assert(names_of(&graph)[i] == start);
            crate::transfer::lemma_same_guards(&graph, &swarm, subs, i);
        }
        assert(prepared(found, &swarm, ts, start));
    }
    let messages = Error::convert(errors, &swarm);
    let r = (swarm, initial, messages);
    proof {
        assert(rendered(r.2@, &r.0, found));
        assert(prepared(found, &r.0, proto.transitions@, proto.initial@));
    }
    r
}

} // verus!
