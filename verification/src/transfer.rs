//! Two graphs of the same protocol: what the analysis says of a protocol
//! depends on its states, transitions and labels alone, not on what else a
//! graph records at its nodes.

use crate::graph::Multigraph;
use crate::sets::Subscriptions;
use crate::swarm::{
    acts_at, cmd_of, guard_findings, involved_at, is_guard, log_of, observes_any, occurs,
    places_from, reached, role_of, varies, ErrorView,
};
use crate::text::Text;
use crate::types::SwarmLabel;
use crate::wellformed::{checked, in_order, precedes, twin_command, twin_guard, violation};
use vstd::prelude::*;

verus! {

/// Whether two graphs have the same shape and, on each edge, labels of the
/// same content.
pub open spec fn same_protocol<A, B>(
    a: &Multigraph<A, SwarmLabel>,
    b: &Multigraph<B, SwarmLabel>,
) -> bool {
    &&& a.shape() == b.shape()
    &&& a.labels().len() == a.shape().edges.len()
    &&& b.labels().len() == a.shape().edges.len()
    &&& forall|e: int| 0 <= e < a.labels().len() ==> (#[trigger] a.labels()[e])@ == b.labels()[e]@
}

/// The edges of two graphs of the same protocol carry the same logs, roles
/// and commands, and the same roles are active and involved at their
/// nodes.
pub proof fn lemma_same_roles<A, B>(
    a: &Multigraph<A, SwarmLabel>,
    b: &Multigraph<B, SwarmLabel>,
    subs: &Subscriptions,
)
    requires
        same_protocol(a, b),
    ensures
        forall|e: int| a.shape().has_edge(e) ==> #[trigger] log_of(a, e) == log_of(b, e),
        forall|e: int| a.shape().has_edge(e) ==> #[trigger] role_of(a, e) == role_of(b, e),
        forall|e: int| a.shape().has_edge(e) ==> #[trigger] cmd_of(a, e) == cmd_of(b, e),
        forall|e: int| #[trigger] a.source(e) == b.source(e),
        forall|e: int| #[trigger] a.target(e) == b.target(e),
        forall|n: int, r: Text| #[trigger] acts_at(a, n, r) == acts_at(b, n, r),
        forall|n: int, r: Text| #[trigger] involved_at(a, subs, n, r) == involved_at(b, subs, n, r),
{
    assert forall|e: int| a.shape().has_edge(e) implies #[trigger] log_of(a, e) == log_of(b, e)
        && role_of(a, e) == role_of(b, e) && cmd_of(a, e) == cmd_of(b, e) by {
        assert(a.labels()[e]@ == b.labels()[e]@);
    }
    assert forall|n: int, r: Text| #[trigger] acts_at(a, n, r) == acts_at(b, n, r) by {
        if acts_at(a, n, r) {
            let e = choose|e: int|
                a.shape().has_edge(e) && #[trigger] a.source(e) == n && role_of(a, e) == r;
            assert(a.labels()[e]@ == b.labels()[e]@);
            assert(b.source(e) == n && role_of(b, e) == r);
        }
        if acts_at(b, n, r) {
            let e = choose|e: int|
                b.shape().has_edge(e) && #[trigger] b.source(e) == n && role_of(b, e) == r;
            assert(a.labels()[e]@ == b.labels()[e]@);
            assert(a.source(e) == n && role_of(a, e) == r);
        }
    }
    assert forall|n: int, r: Text| #[trigger]
        involved_at(a, subs, n, r) == involved_at(b, subs, n, r) by {
        if involved_at(a, subs, n, r) {
            let e = choose|e: int|
                a.shape().has_edge(e) && a.shape().connects(n, #[trigger] a.source(e))
                    && observes_any(subs, r, log_of(a, e));
            assert(a.labels()[e]@ == b.labels()[e]@);
            assert(b.shape().connects(n, b.source(e)) && observes_any(subs, r, log_of(b, e)));
        }
        if involved_at(b, subs, n, r) {
            let e = choose|e: int|
                b.shape().has_edge(e) && b.shape().connects(n, #[trigger] b.source(e))
                    && observes_any(subs, r, log_of(b, e));
            assert(a.labels()[e]@ == b.labels()[e]@);
            assert(a.shape().connects(n, a.source(e)) && observes_any(subs, r, log_of(a, e)));
        }
    }
}

/// One direction of the next lemma.
proof fn lemma_violation_carries<A, B>(
    a: &Multigraph<A, SwarmLabel>,
    b: &Multigraph<B, SwarmLabel>,
    subs: &Subscriptions,
    initial: int,
    m: ErrorView,
)
    requires
        same_protocol(a, b),
        violation(a, subs, initial, m),
    ensures
        violation(b, subs, initial, m),
{
    lemma_same_roles(a, b, subs);
    match m {
        ErrorView::NonDeterministicGuard(e) => {
            assert(checked(a, initial, e));
            assert(log_of(a, e) == log_of(b, e));
            let x = choose|x: int|
                #[trigger] twin_guard(a, e, x) && forall|y: int| #[trigger] twin_guard(a, e, y) ==> y
                    == x;
            assert(log_of(a, x) == log_of(b, x));
            assert(twin_guard(b, e, x));
            assert forall|y: int| #[trigger] twin_guard(b, e, y) implies y == x by {
                assert(log_of(a, y) == log_of(b, y));
                assert(twin_guard(a, e, y));
            }
        },
        ErrorView::NonDeterministicCommand(e) => {
            assert(checked(a, initial, e));
            let x = choose|x: int| #[trigger] twin_command(a, e, x);
            assert(role_of(a, x) == role_of(b, x) && cmd_of(a, x) == cmd_of(b, x));
            assert(role_of(a, e) == role_of(b, e) && cmd_of(a, e) == cmd_of(b, e));
            assert(twin_command(b, e, x));
        },
        ErrorView::ActiveRoleNotSubscribed(e) => {
            assert(checked(a, initial, e));
            assert(log_of(a, e) == log_of(b, e) && role_of(a, e) == role_of(b, e));
        },
        ErrorView::LaterActiveRoleNotSubscribed(e, r) => {
            assert(checked(a, initial, e));
            assert(log_of(a, e) == log_of(b, e));
            assert(acts_at(a, a.target(e), r) == acts_at(b, b.target(e), r));
        },
        ErrorView::LaterInvolvedRoleMoreSubscribed { edge, later, active, events } => {
            assert(checked(a, initial, edge));
            assert(log_of(a, edge) == log_of(b, edge));
            assert(acts_at(a, a.target(edge), active) == acts_at(b, b.target(edge), active));
            assert(involved_at(a, subs, a.target(edge), later) == involved_at(
                b,
                subs,
                b.target(edge),
                later,
            ));
        },
        ErrorView::LaterInvolvedNotGuarded(e, r) => {
            assert(checked(a, initial, e));
            assert(log_of(a, e) == log_of(b, e));
            assert(involved_at(a, subs, a.target(e), r) == involved_at(b, subs, b.target(e), r));
        },
        _ => {},
    }
}

/// Two graphs of the same protocol give rise to the same findings.
pub proof fn lemma_same_findings<A, B>(
    a: &Multigraph<A, SwarmLabel>,
    b: &Multigraph<B, SwarmLabel>,
    subs: &Subscriptions,
    initial: int,
)
    requires
        same_protocol(a, b),
    ensures
        forall|m: ErrorView| #[trigger] violation(a, subs, initial, m) == violation(b, subs, initial, m),
        forall|e: int| #[trigger] checked(a, initial, e) == checked(b, initial, e),
{
    assert(same_protocol(b, a)) by {
        assert forall|e: int| 0 <= e < b.labels().len() implies (#[trigger] b.labels()[e])@
            == a.labels()[e]@ by {
            assert(a.labels()[e]@ == b.labels()[e]@);
        }
    }
    assert forall|m: ErrorView| #[trigger]
        violation(a, subs, initial, m) == violation(b, subs, initial, m) by {
        if violation(a, subs, initial, m) {
            lemma_violation_carries(a, b, subs, initial, m);
        }
        if violation(b, subs, initial, m) {
            lemma_violation_carries(b, a, subs, initial, m);
        }
    }
}

/// Two graphs of the same protocol have their findings reported in the
/// same order.
pub proof fn lemma_same_order<A, B>(
    a: &Multigraph<A, SwarmLabel>,
    b: &Multigraph<B, SwarmLabel>,
    initial: int,
    all: Seq<ErrorView>,
)
    requires
        same_protocol(a, b),
    ensures
        forall|m1: ErrorView, m2: ErrorView| #[trigger]
            precedes(a, initial, m1, m2) == precedes(b, initial, m1, m2),
        in_order(a, initial, all) == in_order(b, initial, all),
{
    assert forall|e: int| #[trigger] a.source(e) == b.source(e) by {}
    assert forall|m1: ErrorView, m2: ErrorView| #[trigger]
        precedes(a, initial, m1, m2) == precedes(b, initial, m1, m2) by {}
}

/// One direction of the next lemma.
proof fn lemma_guard_carries<A, B>(
    a: &Multigraph<A, SwarmLabel>,
    b: &Multigraph<B, SwarmLabel>,
    subs: &Subscriptions,
    initial: int,
    ev: Text,
)
    requires
        same_protocol(a, b),
    ensures
        is_guard(a, initial, ev) ==> is_guard(b, initial, ev),
        varies(a, initial, ev) ==> varies(b, initial, ev),
{
    lemma_same_roles(a, b, subs);
    assert(reached(a, initial) =~= reached(b, initial));
    if is_guard(a, initial, ev) {
        let e = choose|e: int|
            a.shape().has_edge(e) && reached(a, initial).contains(#[trigger] a.source(e)) && log_of(
                a,
                e,
            ).len() > 0 && log_of(a, e)[0] == ev;
        assert(log_of(a, e) == log_of(b, e));
        assert(reached(b, initial).contains(b.source(e)));
    }
    if varies(a, initial, ev) {
        let seen_a = places_from(a, reached(a, initial));
        let seen_b = places_from(b, reached(b, initial));
        let (x, y) = choose|x: (int, int), y: (int, int)|
            #![trigger seen_a.contains(x), seen_a.contains(y)]
            seen_a.contains(x) && seen_a.contains(y) && occurs(a, x, ev) && occurs(a, y, ev)
                && a.source(x.0) != a.source(y.0);
        assert(log_of(a, x.0) == log_of(b, x.0));
        assert(log_of(a, y.0) == log_of(b, y.0));
        assert(seen_b.contains(x) && seen_b.contains(y));
        assert(occurs(b, x, ev) && occurs(b, y, ev) && b.source(x.0) != b.source(y.0));
    }
}

/// Two graphs of the same protocol have the same guards, and the same of
/// them vary.
pub proof fn lemma_same_guards<A, B>(
    a: &Multigraph<A, SwarmLabel>,
    b: &Multigraph<B, SwarmLabel>,
    subs: &Subscriptions,
    initial: int,
)
    requires
        same_protocol(a, b),
    ensures
        forall|ev: Text| #[trigger] is_guard(a, initial, ev) == is_guard(b, initial, ev),
        forall|ev: Text| #[trigger] varies(a, initial, ev) == varies(b, initial, ev),
        forall|tail: Seq<ErrorView>| #[trigger]
            guard_findings(tail, a, initial) == guard_findings(tail, b, initial),
{
    assert(same_protocol(b, a)) by {
        assert forall|e: int| 0 <= e < b.labels().len() implies (#[trigger] b.labels()[e])@
            == a.labels()[e]@ by {
            assert(a.labels()[e]@ == b.labels()[e]@);
        }
    }
    assert forall|ev: Text|
        #![trigger is_guard(a, initial, ev)]
        #![trigger varies(a, initial, ev)]
        is_guard(a, initial, ev) == is_guard(b, initial, ev) && varies(a, initial, ev) == varies(
            b,
            initial,
            ev,
        ) by {
        lemma_guard_carries(a, b, subs, initial, ev);
        lemma_guard_carries(b, a, subs, initial, ev);
    }
    assert forall|tail: Seq<ErrorView>| #[trigger]
        guard_findings(tail, a, initial) == guard_findings(tail, b, initial) by {
        if guard_findings(tail, a, initial) {
            assert forall|ev: Text| #[trigger]
                tail.contains(ErrorView::GuardNotInvariant(ev)) <==> is_guard(b, initial, ev)
                    && varies(b, initial, ev) by {
                assert(is_guard(a, initial, ev) == is_guard(b, initial, ev));
                assert(varies(a, initial, ev) == varies(b, initial, ev));
            }
        }
        if guard_findings(tail, b, initial) {
            assert forall|ev: Text| #[trigger]
                tail.contains(ErrorView::GuardNotInvariant(ev)) <==> is_guard(a, initial, ev)
                    && varies(a, initial, ev) by {
                assert(is_guard(a, initial, ev) == is_guard(b, initial, ev));
                assert(varies(a, initial, ev) == varies(b, initial, ev));
            }
        }
    }
}

} // verus!
