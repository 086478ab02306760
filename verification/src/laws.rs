//! What holds of every protocol: laws that relate the analysis, the checks
//! and the projection to each other.

use crate::graph::Multigraph;
use crate::machine::{machine_names, MachineGraph};
use crate::project::{exact_search, interest, model_of, named_after, projection, visited};
use crate::sets::Subscriptions;
use crate::swarm::{
    acts_at, analysed, check_findings, check_result, empty_logs, endpoints, guard_findings,
    involved_at, lemma_empty_logs_kind, lemma_first_seen_distinct, loaded,
    log_of, names_of, node_at, observes_any, role_of, roles_at, Analysis, ErrorView, SwarmGraph,
};
use crate::transfer::{lemma_same_findings, lemma_same_guards, same_protocol};
use crate::types::CheckResult;
use crate::{messages_of, reports};
use crate::text::{sorted, string_texts, text_le, text_lt, Text};
use crate::types::{SwarmLabel, Transition};
use crate::wellformed::{
    before_on_edge, checked, exceeds, first_role, in_order, precedes, second_role, surplus,
    violation,
};
use vstd::prelude::*;

verus! {

/// After the analysis, the role that acts on a transition is recorded as
/// active at the state that the transition leaves, where the initial state
/// reaches that state.
pub proof fn lemma_acting_role_is_active(g: &Analysis, subs: &Subscriptions, initial: int, e: int)
    requires
        analysed(g, subs, initial),
        g.shape().has_edge(e),
        g.shape().connects(initial, g.source(e)),
    ensures
        node_at(g, g.source(e)).active@.contains(role_of(g, e)),
{
    assert(acts_at(g, g.source(e), role_of(g, e)));
}

/// After the analysis, the roles recorded as involved at a state that the
/// initial state reaches include every role recorded as active at a
/// successor of the state, provided that the role is involved at the state:
/// that it has a subscription and observes an event of a transition that
/// the state reaches.
pub proof fn lemma_involved_includes_active(
    g: &Analysis,
    subs: &Subscriptions,
    initial: int,
    e: int,
    r: Text,
)
    requires
        g.wf(),
        analysed(g, subs, initial),
        g.shape().has_edge(e),
        g.shape().connects(initial, g.source(e)),
        node_at(g, g.target(e)).active@.contains(r),
        involved_at(g, subs, g.source(e), r),
    ensures
        roles_at(g, g.source(e)).contains(r),
{
}

/// A role that acts on a transition and observes an event of it is involved
/// at every state that has the source of the transition as a successor.
/// So where every acting role observes an event of its own transition, the
/// roles recorded as involved at a state include the roles recorded as
/// active at its successors.
pub proof fn lemma_observing_active_is_involved(
    g: &Analysis,
    subs: &Subscriptions,
    initial: int,
    e: int,
    f: int,
)
    requires
        g.wf(),
        subs.wf(),
        analysed(g, subs, initial),
        g.shape().has_edge(e),
        g.shape().connects(initial, g.source(e)),
        g.shape().has_edge(f),
        g.source(f) == g.target(e),
        observes_any(subs, role_of(g, f), log_of(g, f)),
    ensures
        roles_at(g, g.source(e)).contains(role_of(g, f)),
        node_at(g, g.target(e)).active@.contains(role_of(g, f)),
{
    let s = g.shape();
    let r = role_of(g, f);
    let i = choose|i: int| 0 <= i < log_of(g, f).len() && subs.observes(r, #[trigger] log_of(g, f)[i]);
    subs.lemma_of(r);
    assert(subs.of(r).len() > 0);
    crate::graph::lemma_reaches_self(s, s.all(), g.source(e));
    assert(s.all()[e]);
    assert(s.edges[e] == (g.source(e), g.target(e)));
    assert(s.linked(s.all(), g.source(e), g.target(e)));
    crate::graph::lemma_reaches_step(s, s.all(), g.source(e), g.source(e), g.target(e));
    crate::graph::lemma_reaches_step(s, s.all(), initial, g.source(e), g.target(e));
    assert(s.connects(g.source(e), g.source(f)));
    assert(involved_at(g, subs, g.source(e), r));
    assert(acts_at(g, g.target(e), r));
    assert(s.connects(initial, g.target(e)));
    assert(node_at(g, g.target(e)).active@.contains(r));
}

/// After the analysis, the roles recorded as involved at a state that the
/// initial state reaches include the roles recorded as involved at each
/// successor, and the roles with a subscription that observe an event of a
/// transition into a successor.
pub proof fn lemma_involved_is_closed(
    g: &Analysis,
    subs: &Subscriptions,
    initial: int,
    e: int,
    r: Text,
)
    requires
        g.wf(),
        analysed(g, subs, initial),
        g.shape().has_edge(e),
        g.shape().connects(initial, g.source(e)),
        roles_at(g, g.target(e)).contains(r) || (subs.roles().contains(r) && observes_any(
            subs,
            r,
            log_of(g, e),
        )),
    ensures
        roles_at(g, g.source(e)).contains(r),
{
    let s = g.shape();
    assert(s.all()[e]);
    assert(s.edges[e] == (g.source(e), g.target(e)));
    assert(s.linked(s.all(), g.source(e), g.target(e)));
    crate::graph::lemma_reaches_step(s, s.all(), initial, g.source(e), g.target(e));
    assert(s.connects(initial, g.target(e)));
    if roles_at(g, g.target(e)).contains(r) {
        assert(involved_at(g, subs, g.target(e), r));
        crate::swarm::lemma_involved_back(g, subs, e, r);
    } else {
        crate::graph::lemma_reaches_self(s, s.all(), g.source(e));
        assert(s.connects(g.source(e), g.source(e)));
        assert(involved_at(g, subs, g.source(e), r));
    }
}

/// Whether every role that acts on a transition or has a subscription
/// observes every event of every transition.
pub open spec fn universal<N>(g: &Multigraph<N, SwarmLabel>, subs: &Subscriptions) -> bool {
    forall|r: Text, e: int, i: int|
        #![trigger subs.observes(r, log_of(g, e)[i])]
        (subs.roles().contains(r) || exists|f: int| g.shape().has_edge(f) && #[trigger] role_of(g, f) == r)
            && g.shape().has_edge(e) && 0 <= i < log_of(g, e).len() ==> subs.observes(
            r,
            log_of(g, e)[i],
        )
}

/// Where every role observes every event, the transitions give rise to no
/// finding but those on determinism.
pub proof fn lemma_universal_violations<N>(
    g: &Multigraph<N, SwarmLabel>,
    subs: &Subscriptions,
    initial: int,
    m: ErrorView,
)
    requires
        g.wf(),
        universal(g, subs),
        violation(g, subs, initial, m),
    ensures
        m is NonDeterministicGuard || m is NonDeterministicCommand,
{
    match m {
        ErrorView::ActiveRoleNotSubscribed(e) => {
            assert(checked(g, initial, e));
            assert(role_of(g, e) == role_of(g, e));
            assert(subs.observes(role_of(g, e), log_of(g, e)[0]));
        },
        ErrorView::LaterActiveRoleNotSubscribed(e, r) => {
            assert(checked(g, initial, e));
            let f = choose|f: int|
                g.shape().has_edge(f) && #[trigger] g.source(f) == g.target(e) && role_of(g, f) == r;
            assert(role_of(g, f) == r);
            assert(subs.observes(r, log_of(g, e)[0]));
        },
        ErrorView::LaterInvolvedRoleMoreSubscribed { edge, later, active, events } => {
            assert(checked(g, initial, edge));
            let f = choose|f: int|
                g.shape().has_edge(f) && #[trigger] g.source(f) == g.target(edge) && role_of(g, f)
                    == active;
            assert(role_of(g, f) == active);
            let i = choose|i: int|
                0 <= i < log_of(g, edge).len() && subs.observes(later, #[trigger] log_of(g, edge)[i])
                    && !subs.observes(active, log_of(g, edge)[i]);
            assert(subs.observes(active, log_of(g, edge)[i]));
        },
        ErrorView::LaterInvolvedNotGuarded(e, r) => {
            assert(checked(g, initial, e));
            assert(subs.observes(r, log_of(g, e)[0]));
        },
        _ => {},
    }
}

/// A protocol in which every role observes every event is well-formed but
/// for determinism and empty logs: a check finds nothing on it but a
/// missing initial state, empty logs, guards that vary, and guards and
/// commands that are not deterministic.
pub proof fn lemma_universal_subscription(
    all: Seq<ErrorView>,
    g: &SwarmGraph,
    subs: &Subscriptions,
    ts: Seq<Transition<SwarmLabel>>,
    start: Text,
    k: int,
)
    requires
        loaded(g, ts),
        check_result(all, g, subs, ts, start),
        universal(g, subs),
        0 <= k < all.len(),
    ensures
        all[k] is InitialStateDisconnected || all[k] is LogTypeEmpty || all[k] is GuardNotInvariant
            || all[k] is NonDeterministicGuard || all[k] is NonDeterministicCommand,
{
    let head = empty_logs(ts);
    lemma_empty_logs_kind(ts);
    if !names_of(g).contains(start) {
        if k < head.len() {
            assert(all[k] == head[k]);
        }
    } else {
        let i = choose|i: int| 0 <= i < names_of(g).len() && names_of(g)[i] == start;
        assert(names_of(g)[i] == start);
        let cut = choose|cut: int| check_findings(all, g, subs, i, head, cut);
        if k < head.len() {
            assert(all.take(head.len() as int)[k] == all[k]);
        } else if k < cut {
            let tail = all.subrange(head.len() as int, cut);
            assert(tail[k - head.len()] == all[k]);
        } else {
            let rest = all.skip(cut);
            assert(rest[k - cut] == all[k]);
            assert(rest.contains(all[k]));
            lemma_universal_violations(g, subs, i, all[k]);
        }
    }
}

/// Projecting the same protocol for the same role twice gives the same
/// machine: two graphs of the projection have the same nodes, names, edges
/// and labels.
pub proof fn lemma_projection_determined(
    a: &MachineGraph,
    b: &MachineGraph,
    swarm: &SwarmGraph,
    sub: Seq<Text>,
    role: Text,
    initial: int,
)
    requires
        model_of(a) == projection(swarm, sub, role, initial),
        model_of(b) == projection(swarm, sub, role, initial),
    ensures
        model_of(a) == model_of(b),
        machine_names(a) == machine_names(b),
        a.shape().edges == b.shape().edges,
{
}

/// Every named node of a projection stands for a state that the initial
/// state reaches over transitions of which the role observes an event, and
/// every such state has one named node.
pub proof fn lemma_named_nodes_are_reached(
    machine: &MachineGraph,
    swarm: &SwarmGraph,
    sub: Seq<Text>,
    initial: int,
    n: int,
)
    requires
        named_after(machine, swarm, visited(swarm, sub, initial)),
        exact_search(visited(swarm, sub, initial), swarm, interest(swarm, sub), initial),
        0 <= n < machine.shape().nodes,
        machine.nodes()[n] is Some,
    ensures
        n < visited(swarm, sub, initial).len(),
        machine_names(machine)[n] == Some(names_of(swarm)[visited(swarm, sub, initial)[n]]),
        swarm.shape().reaches(interest(swarm, sub), initial, visited(swarm, sub, initial)[n]),
        forall|k: int|
            0 <= k < visited(swarm, sub, initial).len() && k != n ==> visited(swarm, sub, initial)[k]
                != visited(swarm, sub, initial)[n],
{
    let order = visited(swarm, sub, initial);
    assert(order.contains(order[n]));
}

/// Two sorted lists that hold the same texts, each as often, are the same
/// list: the sorted messages of a check are determined by its findings.
pub proof fn lemma_sorted_determined(a: Seq<Text>, b: Seq<Text>)
    requires
        sorted(a),
        sorted(b),
        a.to_multiset() == b.to_multiset(),
    ensures
        a == b,
{
    let leq = |x: Text, y: Text| text_le(x, y);
    assert forall|x: Text, y: Text| #[trigger] leq(x, y) || #[trigger] leq(y, x) by {
        crate::text::lemma_text_lt_total(x, y);
    }
    assert forall|x: Text, y: Text| #[trigger] leq(x, y) && #[trigger] leq(y, x) implies x == y by {
        if x != y {
            crate::text::lemma_text_lt_asymmetric(x, y);
        }
    }
    assert forall|x: Text, y: Text, z: Text| #[trigger] leq(x, y) && #[trigger] leq(y, z) implies leq(
        x,
        z,
    ) by {
        if x != y && y != z {
            crate::text::lemma_text_lt_transitive(x, y, z);
        }
    }
    assert(vstd::relations::total_ordering(leq));
    assert(vstd::relations::sorted_by(a, leq));
    assert(vstd::relations::sorted_by(b, leq));
    vstd::seq_lib::lemma_sorted_unique(a, b, leq);
}


/// Two graphs of the same protocol have the same shape, the same names and
/// labels of the same content.
pub proof fn lemma_loaded_same(g1: &SwarmGraph, g2: &SwarmGraph, ts: Seq<Transition<SwarmLabel>>)
    requires
        loaded(g1, ts),
        loaded(g2, ts),
    ensures
        same_protocol(g1, g2),
        names_of(g1) == names_of(g2),
{
    let names = names_of(g1);
    lemma_first_seen_distinct(endpoints(ts));
    assert(names.len() == g1.shape().nodes);
    assert(names_of(g2).len() == g2.shape().nodes);
    assert forall|e: int| 0 <= e < ts.len() implies g1.shape().edges[e] == g2.shape().edges[e] by {
        assert(g1.labels()[e]@ == ts[e].label@);
        assert(g2.labels()[e]@ == ts[e].label@);
        assert(names[g1.source(e)] == names[g2.source(e)]);
        assert(names[g1.target(e)] == names[g2.target(e)]);
    }
    assert(g1.shape().edges =~= g2.shape().edges);
    assert(g1.shape() == g2.shape());
    assert forall|e: int| 0 <= e < g1.labels().len() implies (#[trigger] g1.labels()[e])@
        == g2.labels()[e]@ by {
        assert(g2.labels()[e]@ == ts[e].label@);
    }
}

/// Two graphs of the same protocol put every finding into the same words.
proof fn lemma_same_words(g1: &SwarmGraph, g2: &SwarmGraph, m: ErrorView)
    requires
        same_protocol(g1, g2),
        names_of(g1) == names_of(g2),
    ensures
        crate::report::error_text(g1, m) == crate::report::error_text(g2, m),
{
    assert forall|e: int| g1.shape().has_edge(e) implies g1.labels()[e]@ == g2.labels()[e]@ by {}
    match m {
        ErrorView::LogTypeEmpty(e) => {
            if g1.shape().has_edge(e) {
                assert(g1.labels()[e]@ == g2.labels()[e]@);
            }
        },
        ErrorView::ActiveRoleNotSubscribed(e) => {
            if g1.shape().has_edge(e) {
                assert(g1.labels()[e]@ == g2.labels()[e]@);
            }
        },
        ErrorView::LaterActiveRoleNotSubscribed(e, _) => {
            if g1.shape().has_edge(e) {
                assert(g1.labels()[e]@ == g2.labels()[e]@);
            }
        },
        ErrorView::LaterInvolvedRoleMoreSubscribed { edge, .. } => {
            if g1.shape().has_edge(edge) {
                assert(g1.labels()[edge]@ == g2.labels()[edge]@);
            }
        },
        ErrorView::LaterInvolvedNotGuarded(e, _) => {
            if g1.shape().has_edge(e) {
                assert(g1.labels()[e]@ == g2.labels()[e]@);
            }
        },
        ErrorView::NonDeterministicGuard(e) => {
            if g1.shape().has_edge(e) {
                assert(g1.labels()[e]@ == g2.labels()[e]@);
            }
        },
        ErrorView::NonDeterministicCommand(e) => {
            if g1.shape().has_edge(e) {
                assert(g1.labels()[e]@ == g2.labels()[e]@);
            }
        },
        _ => {},
    }
}

/// Two lists without repetitions that hold the same items hold each item
/// as often.
proof fn lemma_same_items<A>(a: Seq<A>, b: Seq<A>)
    requires
        a.no_duplicates(),
        b.no_duplicates(),
        forall|x: A| a.contains(x) <==> b.contains(x),
    ensures
        a.to_multiset() == b.to_multiset(),
{
    broadcast use vstd::seq_lib::group_to_multiset_ensures;

    a.lemma_multiset_has_no_duplicates();
    b.lemma_multiset_has_no_duplicates();
    assert forall|x: A| a.to_multiset().count(x) == b.to_multiset().count(x) by {
        if a.contains(x) {
            assert(b.contains(x));
            assert(a.to_multiset().count(x) > 0);
            assert(b.to_multiset().count(x) > 0);
        } else {
            assert(!b.contains(x));
        }
    }
    assert(a.to_multiset() =~= b.to_multiset());
}

/// Lists that hold each item as often still do after every item is put
/// into words.
proof fn lemma_map_same_items<A, B>(a: Seq<A>, b: Seq<A>, f: spec_fn(A) -> B, g: spec_fn(A) -> B)
    requires
        a.to_multiset() == b.to_multiset(),
        forall|x: A| #[trigger] f(x) == g(x),
    ensures
        a.map_values(f).to_multiset() == b.map_values(g).to_multiset(),
    decreases a.len(),
{
    broadcast use vstd::seq_lib::group_to_multiset_ensures;

    if a.len() == 0 {
        assert(a.to_multiset().len() == a.len());
        assert(b.to_multiset().len() == b.len());
        assert(b.len() == 0);
        assert(a.map_values(f) =~= b.map_values(g));
    } else {
        let x = a.last();
        let shorter = a.drop_last();
        assert(a =~= shorter.push(x));
        assert(a.to_multiset() =~= shorter.to_multiset().insert(x));
        assert(a.to_multiset().count(x) > 0);
        assert(b.contains(x));
        let j = choose|j: int| 0 <= j < b.len() && b[j] == x;
        let rest = b.remove(j);
        assert(rest.to_multiset() =~= b.to_multiset().remove(x));
        assert(shorter.to_multiset() =~= rest.to_multiset());
        lemma_map_same_items(shorter, rest, f, g);
        assert(a.map_values(f) =~= shorter.map_values(f).push(f(x)));
        assert(b.map_values(g) =~= rest.map_values(g).insert(j, g(x)));
        assert(a.map_values(f).to_multiset() =~= shorter.map_values(f).to_multiset().insert(f(x)));
        assert(b.map_values(g).to_multiset() =~= rest.map_values(g).to_multiset().insert(g(x)));
    }
}

/// The findings on guards that vary are determined by the protocol.
proof fn lemma_guard_findings_determined(t1: Seq<ErrorView>, t2: Seq<ErrorView>, g: &SwarmGraph, i: int)
    requires
        guard_findings(t1, g, i),
        guard_findings(t2, g, i),
    ensures
        t1 == t2,
{
    let u1 = t1.map_values(|m: ErrorView| m->GuardNotInvariant_0);
    let u2 = t2.map_values(|m: ErrorView| m->GuardNotInvariant_0);
    assert forall|a: int, b: int| 0 <= a < b < u1.len() implies text_lt(
        #[trigger] u1[a],
        #[trigger] u1[b],
    ) by {
        assert(text_lt(t1[a]->GuardNotInvariant_0, t1[b]->GuardNotInvariant_0));
    }
    assert forall|a: int, b: int| 0 <= a < b < u2.len() implies text_lt(
        #[trigger] u2[a],
        #[trigger] u2[b],
    ) by {
        assert(text_lt(t2[a]->GuardNotInvariant_0, t2[b]->GuardNotInvariant_0));
    }
    assert forall|ev: Text| u1.contains(ev) <==> u2.contains(ev) by {
        let item = ErrorView::GuardNotInvariant(ev);
        if u1.contains(ev) {
            let k = choose|k: int| 0 <= k < u1.len() && u1[k] == ev;
            assert(t1[k] is GuardNotInvariant);
            assert(t1[k] == item);
            assert(t1.contains(item));
            assert(t2.contains(item));
            let k2 = choose|k2: int| 0 <= k2 < t2.len() && t2[k2] == item;
            assert(u2[k2] == ev);
        }
        if u2.contains(ev) {
            let k = choose|k: int| 0 <= k < u2.len() && u2[k] == ev;
            assert(t2[k] is GuardNotInvariant);
            assert(t2[k] == item);
            assert(t2.contains(item));
            assert(t1.contains(item));
            let k1 = choose|k1: int| 0 <= k1 < t1.len() && t1[k1] == item;
            assert(u1[k1] == ev);
        }
    }
    assert(u1.no_duplicates()) by {
        assert forall|a: int, b: int| 0 <= a < u1.len() && 0 <= b < u1.len() && a != b implies u1[a]
            != u1[b] by {
            crate::text::lemma_text_lt_irreflexive(u1[a]);
            if a < b {
                assert(text_lt(u1[a], u1[b]));
            } else {
                assert(text_lt(u1[b], u1[a]));
            }
        }
    }
    assert(u2.no_duplicates()) by {
        assert forall|a: int, b: int| 0 <= a < u2.len() && 0 <= b < u2.len() && a != b implies u2[a]
            != u2[b] by {
            crate::text::lemma_text_lt_irreflexive(u2[a]);
            if a < b {
                assert(text_lt(u2[a], u2[b]));
            } else {
                assert(text_lt(u2[b], u2[a]));
            }
        }
    }
    lemma_same_items(u1, u2);
    assert(sorted(u1));
    assert(sorted(u2));
    lemma_sorted_determined(u1, u2);
    assert(t1.len() == t2.len());
    assert forall|k: int| 0 <= k < t1.len() implies t1[k] == t2[k] by {
        assert(t1[k] is GuardNotInvariant);
        assert(t2[k] is GuardNotInvariant);
        assert(u1[k] == t1[k]->GuardNotInvariant_0);
        assert(u2[k] == t2[k]->GuardNotInvariant_0);
    }
    assert(t1 =~= t2);
}

/// A state that a transition names is a state of the loaded protocol: the
/// initial state is found where a transition leaves or enters it.
pub proof fn lemma_named_state_is_found(g: &SwarmGraph, ts: Seq<Transition<SwarmLabel>>, e: int)
    requires
        loaded(g, ts),
        0 <= e < ts.len(),
    ensures
        names_of(g).contains(ts[e].source@),
        names_of(g).contains(ts[e].target@),
{
    assert(g.labels()[e]@ == ts[e].label@);
    assert(g.shape().has_edge(e));
    assert(names_of(g)[g.source(e)] == ts[e].source@);
    assert(names_of(g)[g.target(e)] == ts[e].target@);
}

/// Of two findings, at most one is reported before the other.
pub proof fn lemma_precedes_asymmetric<N>(
    g: &Multigraph<N, SwarmLabel>,
    initial: int,
    a: ErrorView,
    b: ErrorView,
)
    requires
        precedes(g, initial, a, b),
    ensures
        !precedes(g, initial, b, a),
{
    if before_on_edge(a, b) && before_on_edge(b, a) {
        let p = first_role(a);
        let q = first_role(b);
        if text_lt(p, q) {
            crate::text::lemma_text_lt_asymmetric(p, q);
        }
        crate::text::lemma_text_lt_irreflexive(p);
        let x = second_role(a);
        let y = second_role(b);
        if x is Some && y is Some && text_lt(x->0, y->0) {
            crate::text::lemma_text_lt_asymmetric(x->0, y->0);
        }
    }
}

/// The order of the checks fixes the list of their findings: two lists
/// that hold the same findings, each once and in the order of the checks,
/// are the same list.
pub proof fn lemma_order_determined<N>(
    g: &Multigraph<N, SwarmLabel>,
    initial: int,
    a: Seq<ErrorView>,
    b: Seq<ErrorView>,
)
    requires
        a.no_duplicates(),
        b.no_duplicates(),
        forall|m: ErrorView| a.contains(m) <==> b.contains(m),
        in_order(g, initial, a),
        in_order(g, initial, b),
    ensures
        a == b,
    decreases a.len(),
{
    if a.len() == 0 {
        if b.len() > 0 {
            assert(b.contains(b[0]));
        }
        assert(a =~= b);
    } else {
        assert(a.contains(a[0]));
        let k = choose|k: int| 0 <= k < b.len() && b[k] == a[0];
        assert(b.contains(b[0]));
        let j = choose|j: int| 0 <= j < a.len() && a[j] == b[0];
        if k > 0 {
            assert(precedes(g, initial, b[0], b[k]));
            if j > 0 {
                assert(precedes(g, initial, a[0], a[j]));
                lemma_precedes_asymmetric(g, initial, a[0], a[j]);
            }
        }
        assert(a[0] == b[0]);
        let ra = a.skip(1);
        let rb = b.skip(1);
        assert forall|m: ErrorView| ra.contains(m) <==> rb.contains(m) by {
            if ra.contains(m) {
                let i = choose|i: int| 0 <= i < ra.len() && ra[i] == m;
                assert(a[i + 1] == m);
                assert(a.contains(m));
                let q = choose|q: int| 0 <= q < b.len() && b[q] == m;
                assert(q > 0);
                assert(rb[q - 1] == m);
            }
            if rb.contains(m) {
                let i = choose|i: int| 0 <= i < rb.len() && rb[i] == m;
                assert(b[i + 1] == m);
                assert(b.contains(m));
                let q = choose|q: int| 0 <= q < a.len() && a[q] == m;
                assert(q > 0);
                assert(ra[q - 1] == m);
            }
        }
        assert(in_order(g, initial, ra)) by {
            assert forall|i: int, j: int| 0 <= i < j < ra.len() implies precedes(
                g,
                initial,
                #[trigger] ra[i],
                #[trigger] ra[j],
            ) by {
                assert(precedes(g, initial, a[i + 1], a[j + 1]));
            }
        }
        assert(in_order(g, initial, rb)) by {
            assert forall|i: int, j: int| 0 <= i < j < rb.len() implies precedes(
                g,
                initial,
                #[trigger] rb[i],
                #[trigger] rb[j],
            ) by {
                assert(precedes(g, initial, b[i + 1], b[j + 1]));
            }
        }
        lemma_order_determined(g, initial, ra, rb);
        assert(a =~= seq![a[0]] + ra);
        assert(b =~= seq![b[0]] + rb);
    }
}

/// What a role observes of a log is the same under two subscription maps
/// in which every role observes the same events.
proof fn lemma_surplus_by_content(a: &Subscriptions, b: &Subscriptions, log: Seq<Text>, later: Text, active: Text)
    requires
        forall|r: Text| #[trigger] a.of(r) == b.of(r),
    ensures
        surplus(a, log, later, active) == surplus(b, log, later, active),
    decreases log.len(),
{
    if log.len() > 0 {
        lemma_surplus_by_content(a, b, log.drop_last(), later, active);
        assert(a.of(later) == b.of(later));
        assert(a.of(active) == b.of(active));
    }
}

/// A role without an entry counts as a role that observes nothing: under
/// two subscription maps in which every role observes the same events, the
/// same roles are involved at every state and the protocol gives rise to
/// the same findings.
pub proof fn lemma_subscriptions_by_content<N>(
    g: &Multigraph<N, SwarmLabel>,
    a: &Subscriptions,
    b: &Subscriptions,
    initial: int,
)
    requires
        a.wf(),
        b.wf(),
        forall|r: Text| #[trigger] a.of(r) == b.of(r),
    ensures
        forall|n: int, r: Text| #[trigger] involved_at(g, a, n, r) == involved_at(g, b, n, r),
        forall|m: ErrorView| #[trigger] violation(g, a, initial, m) == violation(g, b, initial, m),
{
    assert forall|r: Text, log: Seq<Text>| #[trigger] observes_any(a, r, log) == observes_any(b, r, log) by {
        assert(a.of(r) == b.of(r));
    }
    assert forall|n: int, r: Text| #[trigger] involved_at(g, a, n, r) == involved_at(g, b, n, r) by {
        a.lemma_of(r);
        b.lemma_of(r);
        assert(a.of(r) == b.of(r));
        if involved_at(g, a, n, r) {
            let e = choose|e: int|
                g.shape().has_edge(e) && g.shape().connects(n, #[trigger] g.source(e)) && observes_any(
                    a,
                    r,
                    log_of(g, e),
                );
            let log = log_of(g, e);
            let i = choose|i: int| 0 <= i < log.len() && a.observes(r, #[trigger] log[i]);
            assert(b.of(r).contains(log[i]));
            assert(observes_any(b, r, log_of(g, e)));
        }
        if involved_at(g, b, n, r) {
            let e = choose|e: int|
                g.shape().has_edge(e) && g.shape().connects(n, #[trigger] g.source(e)) && observes_any(
                    b,
                    r,
                    log_of(g, e),
                );
            let log = log_of(g, e);
            let i = choose|i: int| 0 <= i < log.len() && b.observes(r, #[trigger] log[i]);
            assert(a.of(r).contains(log[i]));
            assert(observes_any(a, r, log_of(g, e)));
        }
    }
    assert forall|m: ErrorView| #[trigger] violation(g, a, initial, m) == violation(g, b, initial, m) by {
        match m {
            ErrorView::LaterInvolvedRoleMoreSubscribed { edge, later, active, events } => {
                lemma_surplus_by_content(a, b, log_of(g, edge), later, active);
                assert(a.of(later) == b.of(later));
                assert(a.of(active) == b.of(active));
                assert(exceeds(a, log_of(g, edge), later, active) == exceeds(b, log_of(g, edge), later, active));
                assert(involved_at(g, a, g.target(edge), later) == involved_at(g, b, g.target(edge), later));
            },
            ErrorView::LaterInvolvedNotGuarded(e, r) => {
                assert(a.of(r) == b.of(r));
                assert(involved_at(g, a, g.target(e), r) == involved_at(g, b, g.target(e), r));
            },
            ErrorView::LaterActiveRoleNotSubscribed(e, r) => {
                assert(observes_any(a, r, log_of(g, e)) == observes_any(b, r, log_of(g, e)));
            },
            ErrorView::ActiveRoleNotSubscribed(e) => {
                assert(observes_any(a, role_of(g, e), log_of(g, e)) == observes_any(
                    b,
                    role_of(g, e),
                    log_of(g, e),
                ));
            },
            _ => {},
        }
    }
}

/// The analysis does not depend on whether a role that observes nothing
/// has an entry: a graph analysed under one subscription map is analysed
/// under every map in which every role observes the same events.
pub proof fn lemma_analysed_by_content(g: &Analysis, a: &Subscriptions, b: &Subscriptions, initial: int)
    requires
        a.wf(),
        b.wf(),
        forall|r: Text| #[trigger] a.of(r) == b.of(r),
        analysed(g, a, initial),
    ensures
        analysed(g, b, initial),
{
    lemma_subscriptions_by_content(g, a, b, initial);
    assert forall|n: int| #[trigger] g.shape().connects(initial, n) implies {
        &&& node_at(g, n).wf()
        &&& forall|r: Text| #[trigger] node_at(g, n).active@.contains(r) <==> acts_at(g, n, r)
        &&& forall|r: Text| #[trigger] roles_at(g, n).contains(r) <==> involved_at(g, b, n, r)
    } by {
        assert forall|r: Text| #[trigger] roles_at(g, n).contains(r) <==> involved_at(g, b, n, r) by {
            assert(involved_at(g, a, n, r) == involved_at(g, b, n, r));
        }
    }
}

/// The findings of the checks do not depend on whether a role that
/// observes nothing has an entry: under two subscription maps in which
/// every role observes the same events, two lists that hold the findings
/// of the checks, each once and in their order, are the same list.
pub proof fn lemma_missing_role_observes_nothing<N>(
    g: &Multigraph<N, SwarmLabel>,
    a: &Subscriptions,
    b: &Subscriptions,
    initial: int,
    found_a: Seq<ErrorView>,
    found_b: Seq<ErrorView>,
)
    requires
        a.wf(),
        b.wf(),
        forall|r: Text| #[trigger] a.of(r) == b.of(r),
        found_a.no_duplicates(),
        forall|m: ErrorView| found_a.contains(m) <==> violation(g, a, initial, m),
        in_order(g, initial, found_a),
        found_b.no_duplicates(),
        forall|m: ErrorView| found_b.contains(m) <==> violation(g, b, initial, m),
        in_order(g, initial, found_b),
    ensures
        found_a == found_b,
{
    lemma_subscriptions_by_content(g, a, b, initial);
    assert forall|m: ErrorView| found_a.contains(m) <==> found_b.contains(m) by {
        assert(violation(g, a, initial, m) == violation(g, b, initial, m));
    }
    lemma_order_determined(g, initial, found_a, found_b);
}

/// The findings of a check are determined by the protocol and the
/// subscriptions: whatever graphs hold the protocol, two lists that hold
/// the findings of a check are the same list, and each message occurs as
/// often in their wording.
pub proof fn lemma_findings_determined(
    all1: Seq<ErrorView>,
    g1: &SwarmGraph,
    all2: Seq<ErrorView>,
    g2: &SwarmGraph,
    subs: &Subscriptions,
    ts: Seq<Transition<SwarmLabel>>,
    start: Text,
)
    requires
        loaded(g1, ts),
        loaded(g2, ts),
        check_result(all1, g1, subs, ts, start),
        check_result(all2, g2, subs, ts, start),
    ensures
        all1 == all2,
        messages_of(all1, g1).to_multiset() == messages_of(all2, g2).to_multiset(),
{
    broadcast use vstd::seq_lib::group_to_multiset_ensures;

    lemma_loaded_same(g1, g2, ts);
    let head = empty_logs(ts);
    let f = |m: ErrorView| crate::report::error_text(g1, m);
    let g = |m: ErrorView| crate::report::error_text(g2, m);
    assert forall|m: ErrorView| #[trigger] f(m) == g(m) by {
        lemma_same_words(g1, g2, m);
    }
    if !names_of(g1).contains(start) {
        assert(all1 == all2);
    } else {
        let i = choose|i: int| 0 <= i < names_of(g1).len() && names_of(g1)[i] == start;
        assert(names_of(g1)[i] == start);
        assert(names_of(g2)[i] == start);
        let cut1 = choose|cut: int| check_findings(all1, g1, subs, i, head, cut);
        let cut2 = choose|cut: int| check_findings(all2, g2, subs, i, head, cut);
        let guards1 = all1.subrange(head.len() as int, cut1);
        let guards2 = all2.subrange(head.len() as int, cut2);
        lemma_same_guards(g1, g2, subs, i);
        assert(guard_findings(guards2, g1, i));
        lemma_guard_findings_determined(guards1, guards2, g1, i);
        assert(cut1 == cut2);
        let rest1 = all1.skip(cut1);
        let rest2 = all2.skip(cut2);
        assert(all1 =~= all1.take(head.len() as int) + guards1 + rest1);
        assert(all2 =~= all2.take(head.len() as int) + guards2 + rest2);
        let front = head + guards1;
        lemma_same_findings(g1, g2, subs, i);
        assert forall|m: ErrorView| rest1.contains(m) <==> rest2.contains(m) by {
            assert(violation(g1, subs, i, m) == violation(g2, subs, i, m));
        }
        lemma_same_items(rest1, rest2);
        crate::transfer::lemma_same_order(g1, g2, i, rest2);
        lemma_order_determined(g1, i, rest1, rest2);
        vstd::seq_lib::lemma_multiset_commutative(front, rest1);
        vstd::seq_lib::lemma_multiset_commutative(front, rest2);
        assert(all1 =~= front + rest1);
        assert(all2 =~= front + rest2);
    }
    lemma_map_same_items(all1, all2, f, g);
}

/// The outcome of a check is determined by the protocol and the
/// subscriptions: two outcomes that report the findings of a check on the
/// same protocol under the same subscriptions agree, and where they fail
/// they hold the same messages in the same order.
pub proof fn lemma_check_determined(
    r1: CheckResult,
    all1: Seq<ErrorView>,
    g1: &SwarmGraph,
    r2: CheckResult,
    all2: Seq<ErrorView>,
    g2: &SwarmGraph,
    subs: &Subscriptions,
    ts: Seq<Transition<SwarmLabel>>,
    start: Text,
)
    requires
        loaded(g1, ts),
        loaded(g2, ts),
        check_result(all1, g1, subs, ts, start),
        check_result(all2, g2, subs, ts, start),
        reports(r1, messages_of(all1, g1)),
        reports(r2, messages_of(all2, g2)),
    ensures
        r1 is OK <==> r2 is OK,
        r1 is ERROR && r2 is ERROR ==> string_texts(r1->errors@) == string_texts(r2->errors@),
{
    broadcast use vstd::seq_lib::group_to_multiset_ensures;

    lemma_findings_determined(all1, g1, all2, g2, subs, ts, start);
    let m1 = messages_of(all1, g1);
    let m2 = messages_of(all2, g2);
    assert(m1.len() == m1.to_multiset().len());
    assert(m2.len() == m2.to_multiset().len());
    if r1 is ERROR && r2 is ERROR {
        lemma_sorted_determined(string_texts(r1->errors@), string_texts(r2->errors@));
    }
}

} // verus!
