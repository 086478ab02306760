//! The checks of well-formedness: what each finding on a transition means,
//! and the walk over the protocol that reports the findings.

use crate::graph::{dfs_order, ids, EdgeId, Multigraph, NodeId};
use crate::mask::{mask_and, mask_clone, mask_first_one, mask_new, mask_not, mask_ones, mask_set, LogMask};
use crate::sets::{with_text, NameSet, Subscriptions};
use crate::swarm::{
    acts_at, analysed, cmd_of, involved_at, log_of, node_at, observes_any, picked, role_of, roles_at,
    views, Analysis, Error, ErrorView,
};
use crate::text::{strictly_sorted, text_lt, Text};
use crate::types::{texts, EventType, Named, Role, SwarmLabel};
use vstd::prelude::*;

verus! {

/// The guard of edge `e`: the first event of its log.
pub open spec fn guard_of<N>(g: &Multigraph<N, SwarmLabel>, e: int) -> Text {
    log_of(g, e)[0]
}

/// Whether edge `e` is checked: it leaves a node that `initial` reaches,
/// and its log is not empty. An edge without events is reported as such
/// when the protocol is loaded, and takes no part in the checks.
pub open spec fn checked<N>(g: &Multigraph<N, SwarmLabel>, initial: int, e: int) -> bool {
    g.shape().has_edge(e) && g.shape().connects(initial, g.source(e)) && log_of(g, e).len() > 0
}

/// Whether `x` is a newer edge than `e` that leaves the same node, has
/// events and has the same guard.
pub open spec fn twin_guard<N>(g: &Multigraph<N, SwarmLabel>, e: int, x: int) -> bool {
    g.shape().has_edge(x) && x > e && g.source(x) == g.source(e) && log_of(g, x).len() > 0
        && guard_of(g, x) == guard_of(g, e)
}

/// Whether `x` is a newer edge than `e` that leaves the same node, has
/// events and has the same role and command.
pub open spec fn twin_command<N>(g: &Multigraph<N, SwarmLabel>, e: int, x: int) -> bool {
    g.shape().has_edge(x) && x > e && g.source(x) == g.source(e) && log_of(g, x).len() > 0
        && role_of(g, x) == role_of(g, e) && cmd_of(g, x) == cmd_of(g, e)
}

/// The events of `log` that role `later` observes and role `active` does
/// not, in the order of their names and each once.
pub open spec fn surplus(subs: &Subscriptions, log: Seq<Text>, later: Text, active: Text) -> Seq<Text>
    decreases log.len(),
{
    if log.len() == 0 {
        Seq::empty()
    } else {
        let rest = surplus(subs, log.drop_last(), later, active);
        if subs.observes(later, log.last()) && !subs.observes(active, log.last()) {
            with_text(rest, log.last())
        } else {
            rest
        }
    }
}

/// Whether role `later` observes an event of `log` that role `active` does
/// not observe.
pub open spec fn exceeds(subs: &Subscriptions, log: Seq<Text>, later: Text, active: Text) -> bool {
    exists|i: int|
        0 <= i < log.len() && subs.observes(later, #[trigger] log[i]) && !subs.observes(active, log[i])
}

/// The edge that a finding is about, if it is about one.
pub open spec fn edge_of(m: ErrorView) -> Option<int> {
    match m {
        ErrorView::InitialStateDisconnected => None,
        ErrorView::LogTypeEmpty(e) => Some(e),
        ErrorView::ActiveRoleNotSubscribed(e) => Some(e),
        ErrorView::LaterActiveRoleNotSubscribed(e, _) => Some(e),
        ErrorView::LaterInvolvedRoleMoreSubscribed { edge, .. } => Some(edge),
        ErrorView::LaterInvolvedNotGuarded(e, _) => Some(e),
        ErrorView::NonDeterministicGuard(e) => Some(e),
        ErrorView::NonDeterministicCommand(e) => Some(e),
        ErrorView::GuardNotInvariant(_) => None,
    }
}

/// Whether the protocol, under the subscriptions, gives rise to finding `m`
/// on one of its checked edges.
pub open spec fn violation<N>(
    g: &Multigraph<N, SwarmLabel>,
    subs: &Subscriptions,
    initial: int,
    m: ErrorView,
) -> bool {
    match m {
        ErrorView::NonDeterministicGuard(e) => checked(g, initial, e) && exists|x: int|
            #[trigger] twin_guard(g, e, x) && forall|y: int| #[trigger] twin_guard(g, e, y) ==> y == x,
        ErrorView::NonDeterministicCommand(e) => checked(g, initial, e) && exists|x: int| #[trigger]
            twin_command(g, e, x),
        ErrorView::ActiveRoleNotSubscribed(e) => checked(g, initial, e) && !observes_any(
            subs,
            role_of(g, e),
            log_of(g, e),
        ),
        ErrorView::LaterActiveRoleNotSubscribed(e, r) => checked(g, initial, e) && acts_at(
            g,
            g.target(e),
            r,
        ) && !observes_any(subs, r, log_of(g, e)),
        ErrorView::LaterInvolvedRoleMoreSubscribed { edge, later, active, events } => checked(
            g,
            initial,
            edge,
        ) && acts_at(g, g.target(edge), active) && involved_at(g, subs, g.target(edge), later)
            && events == surplus(subs, log_of(g, edge), later, active) && exceeds(
            subs,
            log_of(g, edge),
            later,
            active,
        ),
        ErrorView::LaterInvolvedNotGuarded(e, r) => checked(g, initial, e) && involved_at(
            g,
            subs,
            g.target(e),
            r,
        ) && !subs.observes(r, guard_of(g, e)),
        _ => false,
    }
}

/// Whether `after` is `before` with the findings of `s` appended, each
/// once.
pub open spec fn appended(before: Seq<ErrorView>, after: Seq<ErrorView>, s: Set<ErrorView>) -> bool {
    &&& after.len() >= before.len()
    &&& after.take(before.len() as int) == before
    &&& after.skip(before.len() as int).no_duplicates()
    &&& forall|m: ErrorView| #[trigger] after.skip(before.len() as int).contains(m) <==> s.contains(m)
}

/// Nothing appended.
pub proof fn lemma_appended_none(a: Seq<ErrorView>)
    ensures
        appended(a, a, Set::empty()),
{
    assert(a.take(a.len() as int) =~= a);
    assert(a.skip(a.len() as int) =~= Seq::<ErrorView>::empty());
}

/// One finding appended.
pub proof fn lemma_appended_one(a: Seq<ErrorView>, m: ErrorView)
    ensures
        appended(a, a.push(m), set![m]),
{
    let b = a.push(m);
    assert(b.take(a.len() as int) =~= a);
    assert(b.skip(a.len() as int) =~= seq![m]);
    assert(seq![m][0] == m);
}

/// Findings appended in two steps.
pub proof fn lemma_appended_join(
    a: Seq<ErrorView>,
    b: Seq<ErrorView>,
    c: Seq<ErrorView>,
    s1: Set<ErrorView>,
    s2: Set<ErrorView>,
)
    requires
        appended(a, b, s1),
        appended(b, c, s2),
        s1.disjoint(s2),
    ensures
        appended(a, c, s1.union(s2)),
{
    let ab = b.skip(a.len() as int);
    let bc = c.skip(b.len() as int);
    let ac = c.skip(a.len() as int);
    assert(c.take(a.len() as int) =~= c.take(b.len() as int).take(a.len() as int));
    assert(ac =~= ab + bc) by {
        assert(ac.len() == ab.len() + bc.len());
        assert forall|i: int| 0 <= i < ac.len() implies ac[i] == (ab + bc)[i] by {
            if i < ab.len() {
                assert(c.take(b.len() as int)[a.len() + i] == b[a.len() + i]);
            }
        }
    }
    assert forall|m: ErrorView| #[trigger] ac.contains(m) <==> s1.union(s2).contains(m) by {
        if ab.contains(m) {
            let i = choose|i: int| 0 <= i < ab.len() && ab[i] == m;
            assert(ac[i] == m);
        }
        if bc.contains(m) {
            let i = choose|i: int| 0 <= i < bc.len() && bc[i] == m;
            assert(ac[ab.len() + i] == m);
        }
        if ac.contains(m) {
            let i = choose|i: int| 0 <= i < ac.len() && ac[i] == m;
            if i < ab.len() {
                assert(ab[i] == m);
            } else {
                assert(bc[i - ab.len()] == m);
            }
        }
    }
    assert forall|i: int, j: int| 0 <= i < ac.len() && 0 <= j < ac.len() && i != j implies ac[i]
        != ac[j] by {
        if i < ab.len() && j < ab.len() {
            assert(ab[i] != ab[j]);
        } else if i >= ab.len() && j >= ab.len() {
            assert(bc[i - ab.len()] != bc[j - ab.len()]);
        } else if i < ab.len() {
            assert(ab.contains(ab[i]));
            assert(bc.contains(bc[j - ab.len()]));
        } else {
            assert(ab.contains(ab[j]));
            assert(bc.contains(bc[i - ab.len()]));
        }
    }
}


/// The states that `initial` reaches, in the order in which the checks
/// walk them.
pub open spec fn walk<N>(g: &Multigraph<N, SwarmLabel>, initial: int) -> Seq<int> {
    dfs_order(g.shape().nodes, g.shape().edges, g.shape().all(), initial)
}

/// The place in the walk of the state that edge `e` leaves.
pub open spec fn place<N>(g: &Multigraph<N, SwarmLabel>, initial: int, e: int) -> int {
    walk(g, initial).index_of(g.source(e))
}

/// The step of the checks on one edge that reports finding `m`: the guard,
/// the command, the acting role, the active roles at the target, the
/// involved roles at the target.
pub open spec fn stage(m: ErrorView) -> int {
    match m {
        ErrorView::NonDeterministicGuard(_) => 0,
        ErrorView::NonDeterministicCommand(_) => 1,
        ErrorView::ActiveRoleNotSubscribed(_) => 2,
        ErrorView::LaterActiveRoleNotSubscribed(_, _) => 3,
        ErrorView::LaterInvolvedRoleMoreSubscribed { .. } => 3,
        ErrorView::LaterInvolvedNotGuarded(_, _) => 4,
        _ => 5,
    }
}

/// The role at the target by which finding `m` is placed within its step.
pub open spec fn first_role(m: ErrorView) -> Text {
    match m {
        ErrorView::LaterActiveRoleNotSubscribed(_, r) => r,
        ErrorView::LaterInvolvedRoleMoreSubscribed { active, .. } => active,
        ErrorView::LaterInvolvedNotGuarded(_, r) => r,
        _ => Seq::empty(),
    }
}

/// The involved role that finding `m` holds against an active role.
pub open spec fn second_role(m: ErrorView) -> Option<Text> {
    match m {
        ErrorView::LaterInvolvedRoleMoreSubscribed { later, .. } => Some(later),
        _ => None,
    }
}

/// Whether, of two findings on one edge, `a` is reported before `b`: by
/// step, then by the name of the first role, and a finding on an active
/// role before those on the involved roles held against it, which come by
/// name.
pub open spec fn before_on_edge(a: ErrorView, b: ErrorView) -> bool {
    ||| stage(a) < stage(b)
    ||| stage(a) == stage(b) && text_lt(first_role(a), first_role(b))
    ||| stage(a) == stage(b) && first_role(a) == first_role(b) && match (second_role(a), second_role(b)) {
        (None, Some(_)) => true,
        (Some(x), Some(y)) => text_lt(x, y),
        _ => false,
    }
}

/// Whether finding `a` is reported before finding `b`: the findings come
/// state by state in the order of the walk, at each state edge by edge,
/// newest first, and on each edge step by step.
pub open spec fn precedes<N>(g: &Multigraph<N, SwarmLabel>, initial: int, a: ErrorView, b: ErrorView) -> bool {
    &&& edge_of(a) is Some
    &&& edge_of(b) is Some
    &&& {
        let x = edge_of(a)->0;
        let y = edge_of(b)->0;
        ||| place(g, initial, x) < place(g, initial, y)
        ||| place(g, initial, x) == place(g, initial, y) && x > y
        ||| x == y && before_on_edge(a, b)
    }
}

/// Whether the findings of `all` stand in the order in which the checks
/// report them.
pub open spec fn in_order<N>(g: &Multigraph<N, SwarmLabel>, initial: int, all: Seq<ErrorView>) -> bool {
    forall|i: int, j: int|
        0 <= i < j < all.len() ==> precedes(g, initial, #[trigger] all[i], #[trigger] all[j])
}

/// Whether the findings that `after` has more than `before` stand in the
/// order in which the checks report them.
pub open spec fn ordered<N>(
    g: &Multigraph<N, SwarmLabel>,
    initial: int,
    before: Seq<ErrorView>,
    after: Seq<ErrorView>,
) -> bool {
    forall|i: int, j: int|
        before.len() <= i < j < after.len() ==> precedes(g, initial, #[trigger] after[i], #[trigger] after[j])
}

/// One finding is in order.
pub proof fn lemma_ordered_one<N>(g: &Multigraph<N, SwarmLabel>, initial: int, a: Seq<ErrorView>, m: ErrorView)
    ensures
        ordered(g, initial, a, a.push(m)),
        ordered(g, initial, a, a),
{
}

/// Findings appended in two steps are in order where each step is and
/// every finding of the first precedes every finding of the second.
pub proof fn lemma_ordered_join<N>(
    g: &Multigraph<N, SwarmLabel>,
    initial: int,
    a: Seq<ErrorView>,
    b: Seq<ErrorView>,
    c: Seq<ErrorView>,
    s1: Set<ErrorView>,
    s2: Set<ErrorView>,
)
    requires
        appended(a, b, s1),
        appended(b, c, s2),
        ordered(g, initial, a, b),
        ordered(g, initial, b, c),
        forall|m1: ErrorView, m2: ErrorView|
            #[trigger] s1.contains(m1) && #[trigger] s2.contains(m2) ==> precedes(g, initial, m1, m2),
    ensures
        ordered(g, initial, a, c),
{
    let ab = b.skip(a.len() as int);
    let bc = c.skip(b.len() as int);
    assert forall|i: int, j: int| a.len() <= i < j < c.len() implies precedes(
        g,
        initial,
        #[trigger] c[i],
        #[trigger] c[j],
    ) by {
        if i < b.len() {
            assert(c.take(b.len() as int)[i] == c[i]);
            assert(ab[i - a.len()] == b[i]);
            assert(ab.contains(b[i]));
        }
        if j < b.len() {
            assert(c.take(b.len() as int)[j] == c[j]);
        } else {
            assert(bc[j - b.len()] == c[j]);
            assert(bc.contains(c[j]));
        }
    }
}

/// An element of a list without repeats is found at its place.
pub proof fn lemma_place_found(s: Seq<int>, k: int)
    requires
        s.no_duplicates(),
        0 <= k < s.len(),
    ensures
        s.index_of(s[k]) == k,
{
    let i = s.index_of(s[k]);
    assert(0 <= i < s.len() && s[i] == s[k]);
}


/// The texts of `log` at the positions that `bits` marks, in the order of
/// their names and each once.
pub open spec fn marked(log: Seq<Text>, bits: Seq<bool>) -> Seq<Text>
    decreases log.len(),
{
    if log.len() == 0 || bits.len() != log.len() {
        Seq::empty()
    } else {
        let rest = marked(log.drop_last(), bits.drop_last());
        if bits.last() {
            with_text(rest, log.last())
        } else {
            rest
        }
    }
}

/// Positions that are not marked add nothing.
proof fn lemma_marked_gap(log: Seq<Text>, bits: Seq<bool>, a: int, b: int)
    requires
        bits.len() == log.len(),
        0 <= a <= b <= log.len(),
        forall|i: int| a <= i < b ==> !(#[trigger] bits[i]),
    ensures
        marked(log.take(b), bits.take(b)) == marked(log.take(a), bits.take(a)),
    decreases b - a,
{
    if a < b {
        assert(log.take(b).drop_last() =~= log.take(b - 1));
        assert(bits.take(b).drop_last() =~= bits.take(b - 1));
        assert(!bits[b - 1]);
        lemma_marked_gap(log, bits, a, b - 1);
    }
}

/// A marked position adds its text.
proof fn lemma_marked_hit(log: Seq<Text>, bits: Seq<bool>, a: int)
    requires
        bits.len() == log.len(),
        0 <= a < log.len(),
        bits[a],
    ensures
        marked(log.take(a + 1), bits.take(a + 1)) == with_text(
            marked(log.take(a), bits.take(a)),
            log[a],
        ),
{
    assert(log.take(a + 1).drop_last() =~= log.take(a));
    assert(bits.take(a + 1).drop_last() =~= bits.take(a));
}

/// The positions at which `later` observes more than `active` mark the
/// surplus of `later`.
proof fn lemma_marked_surplus(
    subs: &Subscriptions,
    log: Seq<Text>,
    bits: Seq<bool>,
    later: Text,
    active: Text,
)
    requires
        bits.len() == log.len(),
        forall|i: int|
            0 <= i < log.len() ==> #[trigger] bits[i] == (subs.observes(later, log[i])
                && !subs.observes(active, log[i])),
    ensures
        marked(log, bits) == surplus(subs, log, later, active),
    decreases log.len(),
{
    if log.len() > 0 {
        let n = log.len() - 1;
        assert(bits[n] == (subs.observes(later, log[n]) && !subs.observes(active, log[n])));
        assert forall|i: int| 0 <= i < n implies #[trigger] bits.drop_last()[i] == (subs.observes(
            later,
            log.drop_last()[i],
        ) && !subs.observes(active, log.drop_last()[i])) by {
            assert(bits[i] == bits.drop_last()[i]);
        }
        lemma_marked_surplus(subs, log.drop_last(), bits.drop_last(), later, active);
    }
}

/// The mask of the positions of `log` whose event type is in `set`.
pub fn log_filter(log: &Vec<EventType>, set: &NameSet<EventType>) -> (mask: LogMask)
    ensures
        mask@.len() == log@.len(),
        forall|i: int| 0 <= i < log@.len() ==> #[trigger] mask@[i] == set@.contains(texts(log@)[i]),
{
    let mut mask = mask_new(log.len());
    let mut i: usize = 0;
    while i < log.len()
        invariant
            i <= log@.len(),
            mask@.len() == log@.len(),
            forall|k: int| 0 <= k < i ==> #[trigger] mask@[k] == set@.contains(texts(log@)[k]),
            forall|k: int| i <= k < log@.len() ==> !(#[trigger] mask@[k]),
        decreases log@.len() - i,
    {
        if set.contains(&log[i]) {
            mask_set(&mut mask, i, true);
        }
        assert(texts(log@)[i as int] == log@[i as int]@);
        i += 1;
    }
    mask
}

/// What `role` observes: its entry in the subscriptions, or nothing.
fn subscription<'a>(subs: &'a Subscriptions, nothing: &'a NameSet<EventType>, role: &Role) -> (set:
    &'a NameSet<EventType>)
    requires
        subs.wf(),
        nothing@.len() == 0,
    ensures
        set@ == subs.of(role@),
{
    match subs.get(role) {
        Some(set) => set,
        None => {
            assert(nothing@ =~= Seq::<Text>::empty());
            nothing
        },
    }
}

/// Whether no bit of the mask is set.
fn mask_is_clear(mask: &LogMask) -> (clear: bool)
    ensures
        clear == forall|i: int| 0 <= i < mask@.len() ==> !(#[trigger] mask@[i]),
{
    let first = mask_first_one(mask);
    proof {
        if let Some(i) = first {
            assert(mask@[i as int]);
        }
    }
    first.is_none()
}

/// The event types of `log` at the positions that the mask marks.
#[verifier::spinoff_prover]
fn collect_marked(log: &Vec<EventType>, mask: &LogMask) -> (set: NameSet<EventType>)
    requires
        mask@.len() == log@.len(),
    ensures
        set@ == marked(texts(log@), mask@),
{
    let ones = mask_ones(mask);
    let mut set: NameSet<EventType> = NameSet::new();
    let ghost names = texts(log@);
    let ghost bits = mask@;
    let mut k: usize = 0;
    proof {
        let first = if ones@.len() > 0 {
            ones@[0] as int
        } else {
            names.len() as int
        };
        assert forall|i: int| 0 <= i < first implies !(#[trigger] bits[i]) by {
            if bits[i] {
                let j = choose|j: int| 0 <= j < ones@.len() && #[trigger] ones@[j] == i;
                if j > 0 {
                    assert(ones@[0] < ones@[j]);
                }
            }
        }
        assert(names.take(0) =~= Seq::<Text>::empty());
        lemma_marked_gap(names, bits, 0, first);
    }
    while k < ones.len()
        invariant
            k <= ones@.len(),
            names == texts(log@),
            bits == mask@,
            bits.len() == names.len(),
            set.wf(),
            forall|j: int|
                0 <= j < ones@.len() ==> (#[trigger] ones@[j]) < bits.len() && bits[ones@[j] as int],
            forall|a: int, b: int| 0 <= a < b < ones@.len() ==> ones@[a] < ones@[b],
            forall|i: int|
                0 <= i < bits.len() && #[trigger] bits[i] ==> exists|j: int|
                    0 <= j < ones@.len() && #[trigger] ones@[j] == i,
            set@ == marked(
                names.take(
                    if k < ones@.len() {
                        ones@[k as int] as int
                    } else {
                        names.len() as int
                    },
                ),
                bits.take(
                    if k < ones@.len() {
                        ones@[k as int] as int
                    } else {
                        names.len() as int
                    },
                ),
            ),
        decreases ones@.len() - k,
    {
        let at = ones[k];
        set.insert(log[at].clone());
        proof {
            assert(names[at as int] == log@[at as int]@);
            lemma_marked_hit(names, bits, at as int);
            let next = if k + 1 < ones@.len() {
                ones@[k + 1] as int
            } else {
                names.len() as int
            };
            assert forall|i: int| at + 1 <= i < next implies !(#[trigger] bits[i]) by {
                if bits[i] {
                    let j = choose|j: int| 0 <= j < ones@.len() && #[trigger] ones@[j] == i;
                    if j <= k {
                        if j < k {
                            assert(ones@[j] < ones@[k as int]);
                        }
                    } else if j > k + 1 {
                        assert(ones@[k + 1] < ones@[j]);
                    }
                }
            }
            lemma_marked_gap(names, bits, at + 1, next);
        }
        k += 1;
    }
    proof {
        assert(names.take(names.len() as int) =~= names);
        assert(bits.take(names.len() as int) =~= bits);
    }
    set
}


/// Whether `out` lists the edges that leave node `n`, each once, newest
/// first.
pub open spec fn lists_outgoing(g: &Analysis, n: int, out: Seq<usize>) -> bool {
    &&& forall|k: int|
        0 <= k < out.len() ==> g.shape().has_edge(#[trigger] out[k] as int) && g.source(out[k] as int)
            == n
    &&& forall|e: int|
        g.shape().has_edge(e) && #[trigger] g.source(e) == n ==> exists|k: int|
            0 <= k < out.len() && #[trigger] out[k] == e
    &&& forall|a: int, b: int| 0 <= a < b < out.len() ==> out[a] > out[b]
}

/// The findings on determinism at edge `e`.
pub open spec fn part_determinism(
    g: &Analysis,
    subs: &Subscriptions,
    initial: int,
    e: int,
) -> Set<ErrorView> {
    Set::new(
        |m: ErrorView|
            (m is NonDeterministicGuard || m is NonDeterministicCommand) && edge_of(m) == Some(e)
                && violation(g, subs, initial, m),
    )
}

/// Whether the edges at positions `i` and `j` of `out` have the same guard.
pub open spec fn guard_match(g: &Analysis, out: Seq<usize>, i: int, j: int) -> bool {
    log_of(g, out[j] as int).len() > 0 && guard_of(g, out[j] as int) == guard_of(g, out[i] as int)
}

/// Whether the edges at positions `i` and `j` of `out` have the same role
/// and command.
pub open spec fn command_match(g: &Analysis, out: Seq<usize>, i: int, j: int) -> bool {
    log_of(g, out[j] as int).len() > 0 && role_of(g, out[j] as int) == role_of(g, out[i] as int)
        && cmd_of(g, out[j] as int) == cmd_of(g, out[i] as int)
}

/// An edge that leaves the node of `out[i]` and is newer stands before
/// position `i`.
proof fn lemma_newer_position(g: &Analysis, out: Seq<usize>, i: int, x: int) -> (j: int)
    requires
        0 <= i < out.len(),
        lists_outgoing(g, g.source(out[i] as int), out),
        g.shape().has_edge(x),
        g.source(x) == g.source(out[i] as int),
        x > out[i],
    ensures
        0 <= j < i,
        out[j] == x,
{
    let j = choose|j: int| 0 <= j < out.len() && #[trigger] out[j] == x;
    if j > i {
        assert(out[i] > out[j]);
    }
    j
}

/// The guard of `out[i]` is found on exactly one newer edge at its node
/// exactly when one match stands before position `i` and no second.
proof fn lemma_guard_finding(
    g: &Analysis,
    subs: &Subscriptions,
    initial: int,
    out: Seq<usize>,
    i: int,
    first: Option<usize>,
    more: bool,
)
    requires
        0 <= i < out.len(),
        lists_outgoing(g, g.source(out[i] as int), out),
        checked(g, initial, out[i] as int),
        match first {
            Some(a) => a < i && guard_match(g, out, i, a as int) && forall|j: int|
                0 <= j < a ==> !#[trigger] guard_match(g, out, i, j),
            None => !more && forall|j: int| 0 <= j < i ==> !#[trigger] guard_match(g, out, i, j),
        },
        more <==> first is Some && exists|j: int| first->0 < j < i && #[trigger] guard_match(g, out, i, j),
    ensures
        (first is Some && !more) <==> violation(
            g,
            subs,
            initial,
            ErrorView::NonDeterministicGuard(out[i] as int),
        ),
{
    if first is Some && !more {
        lemma_guard_found(g, subs, initial, out, i, first->0 as int);
    }
    if violation(g, subs, initial, ErrorView::NonDeterministicGuard(out[i] as int)) {
        lemma_guard_counted(g, subs, initial, out, i, first, more);
    }
}

/// One match before position `i`, and no second, is the one newer edge
/// with the guard of `out[i]`.
proof fn lemma_guard_found(
    g: &Analysis,
    subs: &Subscriptions,
    initial: int,
    out: Seq<usize>,
    i: int,
    a: int,
)
    requires
        0 <= a < i < out.len(),
        lists_outgoing(g, g.source(out[i] as int), out),
        checked(g, initial, out[i] as int),
        guard_match(g, out, i, a),
        forall|j: int| 0 <= j < i && j != a ==> !#[trigger] guard_match(g, out, i, j),
    ensures
        violation(g, subs, initial, ErrorView::NonDeterministicGuard(out[i] as int)),
{
    let e = out[i] as int;
    let x = out[a] as int;
    assert(g.shape().has_edge(out[a] as int));
    assert(out[a] > out[i]);
    assert(twin_guard(g, e, x));
    assert forall|y: int| #[trigger] twin_guard(g, e, y) implies y == x by {
        let j = lemma_newer_position(g, out, i, y);
        assert(guard_match(g, out, i, j));
    }
}

/// Where exactly one newer edge has the guard of `out[i]`, one match stands
/// before position `i` and no second.
proof fn lemma_guard_counted(
    g: &Analysis,
    subs: &Subscriptions,
    initial: int,
    out: Seq<usize>,
    i: int,
    first: Option<usize>,
    more: bool,
)
    requires
        0 <= i < out.len(),
        lists_outgoing(g, g.source(out[i] as int), out),
        violation(g, subs, initial, ErrorView::NonDeterministicGuard(out[i] as int)),
        first is None ==> forall|j: int| 0 <= j < i ==> !#[trigger] guard_match(g, out, i, j),
        first is Some ==> first->0 < i && guard_match(g, out, i, first->0 as int),
        more ==> first is Some && exists|j: int|
            first->0 < j < i && #[trigger] guard_match(g, out, i, j),
    ensures
        first is Some,
        !more,
{
    let e = out[i] as int;
    let x = choose|x: int|
        #[trigger] twin_guard(g, e, x) && forall|y: int| #[trigger] twin_guard(g, e, y) ==> y == x;
    let j = lemma_newer_position(g, out, i, x);
    assert(guard_match(g, out, i, j));
    if more {
        let a = first->0 as int;
        let j2 = choose|j2: int| a < j2 < i && #[trigger] guard_match(g, out, i, j2);
        assert(g.shape().has_edge(out[a] as int) && g.shape().has_edge(out[j2] as int));
        assert(out[a] > out[j2]);
        assert(out[j2] > out[i]);
        assert(twin_guard(g, e, out[a] as int));
        assert(twin_guard(g, e, out[j2] as int));
    }
}

/// The role and command of `out[i]` are found on a newer edge at its node
/// exactly when a match stands before position `i`.
proof fn lemma_command_finding(
    g: &Analysis,
    subs: &Subscriptions,
    initial: int,
    out: Seq<usize>,
    i: int,
    command: bool,
)
    requires
        0 <= i < out.len(),
        lists_outgoing(g, g.source(out[i] as int), out),
        checked(g, initial, out[i] as int),
        command <==> exists|j: int| 0 <= j < i && #[trigger] command_match(g, out, i, j),
    ensures
        command <==> violation(g, subs, initial, ErrorView::NonDeterministicCommand(out[i] as int)),
{
    let e = out[i] as int;
    let item = ErrorView::NonDeterministicCommand(e);
    if command {
        let j = choose|j: int| 0 <= j < i && #[trigger] command_match(g, out, i, j);
        assert(out[j] > out[i]);
        assert(twin_command(g, e, out[j] as int));
        assert(violation(g, subs, initial, item));
    }
    if violation(g, subs, initial, item) {
        let x = choose|x: int| #[trigger] twin_command(g, e, x);
        let j = lemma_newer_position(g, out, i, x);
        assert(command_match(g, out, i, j));
    }
}

/// Reports whether exactly one newer edge at the same node has the guard of
/// edge `out[i]`, and whether a newer edge there has its role and command.
#[verifier::spinoff_prover]
fn check_determinism(
    g: &Analysis,
    subs: &Subscriptions,
    Ghost(initial): Ghost<int>,
    out: &Vec<EdgeId>,
    i: usize,
    errors: &mut Vec<Error>,
)
    requires
        g.wf(),
        i < out@.len(),
        lists_outgoing(g, g.source(out@[i as int] as int), out@),
        checked(g, initial, out@[i as int] as int),
    ensures
        appended(
            views(old(errors)@),
            views(final(errors)@),
            part_determinism(g, subs, initial, out@[i as int] as int),
        ),
        ordered(g, initial, views(old(errors)@), views(final(errors)@)),
{
    let edge = out[i];
    let label = g.edge_weight(edge);
    let ghost e = edge as int;
    let ghost n = g.source(e);
    let mut first: Option<usize> = None;
    let mut more = false;
    let mut command = false;
    let mut k: usize = 0;
    assert(texts(label.log_type@) == log_of(g, e));
    while k < i
        invariant
            k <= i,
            i < out@.len(),
            g.wf(),
            edge == out@[i as int],
            e == edge as int,
            n == g.source(e),
            *label == g.labels()[e],
            lists_outgoing(g, n, out@),
            log_of(g, e).len() > 0,
            texts(label.log_type@) == log_of(g, e),
            match first {
                Some(a) => a < k && guard_match(g, out@, i as int, a as int) && forall|j: int|
                    0 <= j < a ==> !#[trigger] guard_match(g, out@, i as int, j),
                None => !more && forall|j: int|
                    0 <= j < k ==> !#[trigger] guard_match(g, out@, i as int, j),
            },
            more <==> first is Some && exists|j: int|
                first->0 < j < k && #[trigger] guard_match(g, out@, i as int, j),
            command <==> exists|j: int| 0 <= j < k && #[trigger] command_match(g, out@, i as int, j),
        decreases i - k,
    {
        let other = g.edge_weight(out[k]);
        assert(texts(other.log_type@) == log_of(g, out@[k as int] as int));
        let has_events = other.log_type.len() > 0;
        let same_guard = has_events && other.log_type[0].name().same(label.log_type[0].name());
        let same_command = has_events && other.role.name().same(label.role.name())
            && other.cmd.name().same(label.cmd.name());
        assert(same_guard == guard_match(g, out@, i as int, k as int));
        assert(same_command == command_match(g, out@, i as int, k as int));
        let ghost old_more = more;
        let ghost old_first = first;
        let ghost old_command = command;
        if same_guard {
            if first.is_some() {
                more = true;
            } else {
                first = Some(k);
            }
        }
        if same_command {
            command = true;
        }
        proof {
            if old_more {
                let j = choose|j: int|
                    old_first->0 < j < k && #[trigger] guard_match(g, out@, i as int, j);
                assert(old_first->0 < j < k + 1);
            }
            if more && !old_more {
                assert(guard_match(g, out@, i as int, k as int));
            }
            if old_command {
                let j = choose|j: int| 0 <= j < k && #[trigger] command_match(g, out@, i as int, j);
                assert(0 <= j < k + 1);
            }
        }
        k += 1;
    }
    let ghost start = views(errors@);
    let guard_twice = first.is_some() && !more;
    if guard_twice {
        errors.push(Error::NonDeterministicGuard(edge));
    }
    let ghost middle = views(errors@);
    if command {
        errors.push(Error::NonDeterministicCommand(edge));
    }
    proof {
        let guard_item = ErrorView::NonDeterministicGuard(e);
        let command_item = ErrorView::NonDeterministicCommand(e);
        let s1 = if guard_twice {
            set![guard_item]
        } else {
            Set::empty()
        };
        let s2 = if command {
            set![command_item]
        } else {
            Set::empty()
        };
        if guard_twice {
            assert(middle =~= start.push(guard_item));
            lemma_appended_one(start, guard_item);
        } else {
            lemma_appended_none(start);
        }
        if command {
            assert(views(errors@) =~= middle.push(command_item));
            lemma_appended_one(middle, command_item);
        } else {
            lemma_appended_none(middle);
        }
        lemma_appended_join(start, middle, views(errors@), s1, s2);
        lemma_ordered_one(g, initial, start, guard_item);
        lemma_ordered_one(g, initial, middle, command_item);
        assert(precedes(g, initial, guard_item, command_item));
        lemma_ordered_join(g, initial, start, middle, views(errors@), s1, s2);
        lemma_guard_finding(g, subs, initial, out@, i as int, first, more);
        lemma_command_finding(g, subs, initial, out@, i as int, command);
        assert(s1.union(s2) =~= part_determinism(g, subs, initial, e));
    }
}

/// The findings at edge `e` that name `a` as the active role at its target.
pub open spec fn part_active(
    g: &Analysis,
    subs: &Subscriptions,
    initial: int,
    e: int,
    a: Text,
) -> Set<ErrorView> {
    Set::new(
        |m: ErrorView|
            match m {
                ErrorView::LaterActiveRoleNotSubscribed(e2, r) => e2 == e && r == a && violation(
                    g,
                    subs,
                    initial,
                    m,
                ),
                ErrorView::LaterInvolvedRoleMoreSubscribed { edge, active, .. } => edge == e
                    && active == a && violation(g, subs, initial, m),
                _ => false,
            },
    )
}

/// The findings at edge `e` on a role of `later` that observes more than
/// the active role `a`.
pub open spec fn part_surplus(
    g: &Analysis,
    subs: &Subscriptions,
    initial: int,
    e: int,
    a: Text,
    later: Set<Text>,
) -> Set<ErrorView> {
    Set::new(
        |m: ErrorView|
            match m {
                ErrorView::LaterInvolvedRoleMoreSubscribed { edge, later: l, active, .. } => edge
                    == e && active == a && later.contains(l) && violation(g, subs, initial, m),
                _ => false,
            },
    )
}

/// The first `k` texts of `s`.
pub open spec fn firsts(s: Seq<Text>, k: int) -> Set<Text> {
    Set::new(|t: Text| exists|j: int| 0 <= j < k && j < s.len() && #[trigger] s[j] == t)
}

/// The target of a checked edge is reached, so that its record is exact.
proof fn lemma_target_analysed(g: &Analysis, subs: &Subscriptions, initial: int, e: int)
    requires
        g.wf(),
        analysed(g, subs, initial),
        checked(g, initial, e),
    ensures
        g.shape().connects(initial, g.target(e)),
        0 <= g.target(e) < g.shape().nodes,
        node_at(g, g.target(e)).wf(),
        forall|r: Text| #[trigger] node_at(g, g.target(e)).active@.contains(r) <==> acts_at(g, g.target(e), r),
        forall|r: Text| #[trigger] roles_at(g, g.target(e)).contains(r) <==> involved_at(
            g,
            subs,
            g.target(e),
            r,
        ),
{
    let s = g.shape();
    assert(s.all()[e]);
    assert(s.edges[e] == (g.source(e), g.target(e)));
    assert(s.linked(s.all(), g.source(e), g.target(e)));
    crate::graph::lemma_reaches_step(s, s.all(), initial, g.source(e), g.target(e));
    assert(s.edges[e].1 == g.target(e));
}

/// Whether `set` holds an event of `log`, said of the subscription of a
/// role.
proof fn lemma_clear_mask(subs: &Subscriptions, r: Text, log: Seq<Text>, bits: Seq<bool>)
    requires
        bits.len() == log.len(),
        forall|i: int| 0 <= i < log.len() ==> #[trigger] bits[i] == subs.of(r).contains(log[i]),
    ensures
        (forall|i: int| 0 <= i < bits.len() ==> !(#[trigger] bits[i])) <==> !observes_any(subs, r, log),
{
    if observes_any(subs, r, log) {
        let i = choose|i: int| 0 <= i < log.len() && subs.observes(r, #[trigger] log[i]);
        assert(bits[i]);
    }
    if !(forall|i: int| 0 <= i < bits.len() ==> !(#[trigger] bits[i])) {
        let i = choose|i: int| 0 <= i < bits.len() && #[trigger] bits[i];
        assert(subs.observes(r, log[i]));
    }
}

/// The findings on the involved roles before place `j` precede the finding
/// on the role at place `j`.
proof fn lemma_surplus_in_order(
    g: &Analysis,
    subs: &Subscriptions,
    initial: int,
    e: int,
    a: Text,
    roles: Seq<Text>,
    j: int,
    item: ErrorView,
)
    requires
        strictly_sorted(roles),
        0 <= j < roles.len(),
        item is LaterInvolvedRoleMoreSubscribed,
        edge_of(item) == Some(e),
        first_role(item) == a,
        second_role(item) == Some(roles[j]),
    ensures
        forall|m: ErrorView| #[trigger]
            part_surplus(g, subs, initial, e, a, firsts(roles, j)).contains(m) ==> precedes(
                g,
                initial,
                m,
                item,
            ),
{
    assert forall|m: ErrorView| #[trigger]
        part_surplus(g, subs, initial, e, a, firsts(roles, j)).contains(m) implies precedes(
        g,
        initial,
        m,
        item,
    ) by {
        let l = second_role(m)->0;
        assert(firsts(roles, j).contains(l));
        let q = choose|q: int| 0 <= q < j && q < roles.len() && #[trigger] roles[q] == l;
        assert(text_lt(roles[q], roles[j]));
        assert(before_on_edge(m, item));
    }
}

/// Checks edge `edge` against one role that is active at its target: the
/// role has to observe an event of the edge, and no involved role may
/// observe an event of the edge that this role does not observe.
#[verifier::spinoff_prover]
fn check_active(
    g: &Analysis,
    subs: &Subscriptions,
    Ghost(initial): Ghost<int>,
    nothing: &NameSet<EventType>,
    edge: EdgeId,
    active: &Role,
    errors: &mut Vec<Error>,
)
    requires
        g.wf(),
        subs.wf(),
        analysed(g, subs, initial),
        checked(g, initial, edge as int),
        nothing@.len() == 0,
        acts_at(g, g.target(edge as int), active@),
    ensures
        appended(
            views(old(errors)@),
            views(final(errors)@),
            part_active(g, subs, initial, edge as int, active@),
        ),
        ordered(g, initial, views(old(errors)@), views(final(errors)@)),
{
    let ghost e = edge as int;
    let ghost a = active@;
    let label = g.edge_weight(edge);
    let log = &label.log_type;
    let ghost names = log_of(g, e);
    let ends = g.edge_endpoints(edge).unwrap();
    let target = ends.1;
    proof {
        lemma_target_analysed(g, subs, initial, e);
        assert(texts(log@) == names);
    }
    let filtered = log_filter(log, subscription(subs, nothing, active));
    let ghost start = views(errors@);
    let silent = mask_is_clear(&filtered);
    proof {
        lemma_clear_mask(subs, a, names, filtered@);
    }
    if silent {
        errors.push(Error::LaterActiveRoleNotSubscribed(edge, active.clone()));
    }
    let ghost middle = views(errors@);
    let ghost first_item = ErrorView::LaterActiveRoleNotSubscribed(e, a);
    let ghost s1 = if silent {
        set![first_item]
    } else {
        Set::empty()
    };
    proof {
        if silent {
            assert(middle =~= start.push(first_item));
            lemma_appended_one(start, first_item);
        } else {
            lemma_appended_none(start);
        }
        lemma_appended_none(middle);
        lemma_ordered_one(g, initial, start, first_item);
        assert(part_surplus(g, subs, initial, e, a, firsts(roles_at(g, target as int), 0)) =~= Set::<
            ErrorView,
        >::empty());
    }
    let later_roles = &g.node_weight(target).roles;
    let mut j: usize = 0;
    while j < later_roles.len()
        invariant
            j <= later_roles@.len(),
            g.wf(),
            subs.wf(),
            nothing@.len() == 0,
            e == edge as int,
            a == active@,
            g.shape().has_edge(e),
            target == g.target(e),
            *label == g.labels()[e],
            names == log_of(g, e),
            names == texts(label.log_type@),
            later_roles@ == roles_at(g, target as int),
            later_roles.wf(),
            filtered@.len() == names.len(),
            forall|i: int|
                0 <= i < names.len() ==> #[trigger] filtered@[i] == subs.of(a).contains(names[i]),
            checked(g, initial, e),
            acts_at(g, g.target(e), a),
            forall|r: Text| #[trigger]
                roles_at(g, g.target(e)).contains(r) <==> involved_at(g, subs, g.target(e), r),
            appended(
                middle,
                views(errors@),
                part_surplus(g, subs, initial, e, a, firsts(later_roles@, j as int)),
            ),
            ordered(g, initial, middle, views(errors@)),
        decreases later_roles@.len() - j,
    {
        let later = later_roles.get(j);
        let ghost l = later@;
        let later_log = log_filter(&label.log_type, subscription(subs, nothing, later));
        let extra = mask_and(later_log, mask_not(mask_clone(&filtered)));
        let ghost before = views(errors@);
        let clear = mask_is_clear(&extra);
        proof {
            assert forall|i: int| 0 <= i < names.len() implies #[trigger] extra@[i] == (subs.observes(
                l,
                names[i],
            ) && !subs.observes(a, names[i])) by {
                assert(later_log@[i] == subs.of(l).contains(names[i]));
                assert(filtered@[i] == subs.of(a).contains(names[i]));
            }
            lemma_marked_surplus(subs, names, extra@, l, a);
            if exceeds(subs, names, l, a) {
                let i = choose|i: int|
                    0 <= i < names.len() && subs.observes(l, #[trigger] names[i]) && !subs.observes(
                        a,
                        names[i],
                    );
                assert(extra@[i]);
            }
            if !clear {
                let i = choose|i: int| 0 <= i < extra@.len() && #[trigger] extra@[i];
                assert(subs.observes(l, names[i]) && !subs.observes(a, names[i]));
            }
            assert(clear == !exceeds(subs, names, l, a));
        }
        if !clear {
            let events = collect_marked(&label.log_type, &extra);
            errors.push(
                Error::LaterInvolvedRoleMoreSubscribed {
                    edge,
                    later: later.clone(),
                    active: active.clone(),
                    events,
                },
            );
        }
        proof {
            let item = ErrorView::LaterInvolvedRoleMoreSubscribed {
                edge: e,
                later: l,
                active: a,
                events: surplus(subs, names, l, a),
            };
            let old_set = part_surplus(g, subs, initial, e, a, firsts(later_roles@, j as int));
            let new_set = part_surplus(g, subs, initial, e, a, firsts(later_roles@, j + 1));
            let step = if clear {
                Set::<ErrorView>::empty()
            } else {
                set![item]
            };
            if clear {
                lemma_appended_none(before);
            } else {
                assert(views(errors@) =~= before.push(item));
                lemma_appended_one(before, item);
            }
            assert(later_roles@.contains(l));
            assert(involved_at(g, subs, g.target(e), l));
            assert forall|t: Text| firsts(later_roles@, j + 1).contains(t) <==> firsts(
                later_roles@,
                j as int,
            ).contains(t) || t == l by {
                if firsts(later_roles@, j as int).contains(t) {
                    let q = choose|q: int|
                        0 <= q < j && q < later_roles@.len() && #[trigger] later_roles@[q] == t;
                    assert(0 <= q < j + 1);
                }
                if firsts(later_roles@, j + 1).contains(t) && t != l {
                    let q = choose|q: int|
                        0 <= q < j + 1 && q < later_roles@.len() && #[trigger] later_roles@[q] == t;
                    assert(q < j);
                }
                if t == l {
                    assert(later_roles@[j as int] == t);
                }
            }
            assert(!firsts(later_roles@, j as int).contains(l)) by {
                if firsts(later_roles@, j as int).contains(l) {
                    let q = choose|q: int|
                        0 <= q < j && q < later_roles@.len() && #[trigger] later_roles@[q] == l;
                    crate::text::lemma_text_lt_irreflexive(l);
                    assert(crate::text::text_lt(later_roles@[q], later_roles@[j as int]));
                }
            }
            assert(old_set.disjoint(step));
            assert(old_set.union(step) =~= new_set);
            lemma_appended_join(middle, before, views(errors@), old_set, step);
            lemma_ordered_one(g, initial, before, item);
            lemma_surplus_in_order(g, subs, initial, e, a, later_roles@, j as int, item);
            lemma_ordered_join(g, initial, middle, before, views(errors@), old_set, step);
        }
        j += 1;
    }
    proof {
        let all_later = part_surplus(
            g,
            subs,
            initial,
            e,
            a,
            firsts(later_roles@, later_roles@.len() as int),
        );
        assert(s1.disjoint(all_later));
        assert forall|m: ErrorView| s1.union(all_later).contains(m) <==> part_active(
            g,
            subs,
            initial,
            e,
            a,
        ).contains(m) by {
            if let ErrorView::LaterInvolvedRoleMoreSubscribed { edge: e2, later: l, active: a2, .. } =
                m {
                if e2 == e && a2 == a && violation(g, subs, initial, m) {
                    assert(roles_at(g, g.target(e)).contains(l));
                    let q = choose|q: int| 0 <= q < later_roles@.len() && later_roles@[q] == l;
                    assert(later_roles@[q] == l);
                    assert(firsts(later_roles@, later_roles@.len() as int).contains(l));
                }
            }
        }
        assert(s1.union(all_later) =~= part_active(g, subs, initial, e, a));
        lemma_appended_join(start, middle, views(errors@), s1, all_later);
        assert forall|m: ErrorView| #[trigger] all_later.contains(m) implies precedes(
            g,
            initial,
            first_item,
            m,
        ) by {
            assert(first_role(m) == a);
            assert(second_role(m) is Some);
        }
        lemma_ordered_join(g, initial, start, middle, views(errors@), s1, all_later);
    }
}


/// The findings at edge `e`, those on roles at its target only where the
/// active role is in `actives` and the involved role that is held to the
/// guard is in `guarded`.
pub open spec fn part_edge(
    g: &Analysis,
    subs: &Subscriptions,
    initial: int,
    e: int,
    actives: Set<Text>,
    guarded: Set<Text>,
) -> Set<ErrorView> {
    Set::new(
        |m: ErrorView|
            edge_of(m) == Some(e) && violation(g, subs, initial, m) && match m {
                ErrorView::LaterActiveRoleNotSubscribed(_, r) => actives.contains(r),
                ErrorView::LaterInvolvedRoleMoreSubscribed { active, .. } => actives.contains(active),
                ErrorView::LaterInvolvedNotGuarded(_, r) => guarded.contains(r),
                _ => true,
            },
    )
}

/// All findings at edge `e`.
pub open spec fn findings_at(g: &Analysis, subs: &Subscriptions, initial: int, e: int) -> Set<
    ErrorView,
> {
    Set::new(|m: ErrorView| edge_of(m) == Some(e) && violation(g, subs, initial, m))
}

/// One more text among the first.
proof fn lemma_firsts_step(s: Seq<Text>, k: int)
    requires
        0 <= k < s.len(),
        crate::text::strictly_sorted(s),
    ensures
        forall|t: Text| firsts(s, k + 1).contains(t) <==> firsts(s, k).contains(t) || t == s[k],
        !firsts(s, k).contains(s[k]),
{
    assert forall|t: Text| firsts(s, k + 1).contains(t) <==> firsts(s, k).contains(t) || t == s[k] by {
        if firsts(s, k).contains(t) {
            let q = choose|q: int| 0 <= q < k && q < s.len() && #[trigger] s[q] == t;
            assert(0 <= q < k + 1);
        }
        if firsts(s, k + 1).contains(t) && t != s[k] {
            let q = choose|q: int| 0 <= q < k + 1 && q < s.len() && #[trigger] s[q] == t;
            assert(q < k);
        }
        if t == s[k] {
            assert(s[k] == t);
        }
    }
    if firsts(s, k).contains(s[k]) {
        let q = choose|q: int| 0 <= q < k && q < s.len() && #[trigger] s[q] == s[k];
        crate::text::lemma_text_lt_irreflexive(s[k]);
        assert(crate::text::text_lt(s[q], s[k]));
    }
}

/// The findings on an edge up to the active role at place `k` precede the
/// findings on that role.
proof fn lemma_active_in_order(
    g: &Analysis,
    subs: &Subscriptions,
    initial: int,
    e: int,
    actives: Seq<Text>,
    k: int,
)
    requires
        strictly_sorted(actives),
        0 <= k < actives.len(),
    ensures
        forall|m1: ErrorView, m2: ErrorView|
            #[trigger] part_edge(g, subs, initial, e, firsts(actives, k), Set::empty()).contains(m1)
                && #[trigger] part_active(g, subs, initial, e, actives[k]).contains(m2) ==> precedes(
                g,
                initial,
                m1,
                m2,
            ),
{
    assert forall|m1: ErrorView, m2: ErrorView|
        #[trigger] part_edge(g, subs, initial, e, firsts(actives, k), Set::empty()).contains(m1)
            && #[trigger] part_active(g, subs, initial, e, actives[k]).contains(m2) implies precedes(
        g,
        initial,
        m1,
        m2,
    ) by {
        assert(stage(m2) == 3 && first_role(m2) == actives[k] && edge_of(m2) == Some(e));
        if stage(m1) == 3 {
            let r = first_role(m1);
            assert(firsts(actives, k).contains(r));
            let q = choose|q: int| 0 <= q < k && q < actives.len() && #[trigger] actives[q] == r;
            assert(text_lt(actives[q], actives[k]));
        }
        assert(before_on_edge(m1, m2));
    }
}

/// The findings on an edge up to the involved role at place `k` precede
/// the finding that this role does not observe the guard.
proof fn lemma_guarded_in_order(
    g: &Analysis,
    subs: &Subscriptions,
    initial: int,
    e: int,
    actives: Set<Text>,
    roles: Seq<Text>,
    k: int,
)
    requires
        strictly_sorted(roles),
        0 <= k < roles.len(),
    ensures
        forall|m: ErrorView| #[trigger]
            part_edge(g, subs, initial, e, actives, firsts(roles, k)).contains(m) ==> precedes(
                g,
                initial,
                m,
                ErrorView::LaterInvolvedNotGuarded(e, roles[k]),
            ),
{
    let item = ErrorView::LaterInvolvedNotGuarded(e, roles[k]);
    assert forall|m: ErrorView| #[trigger]
        part_edge(g, subs, initial, e, actives, firsts(roles, k)).contains(m) implies precedes(
        g,
        initial,
        m,
        item,
    ) by {
        if stage(m) == 4 {
            let r = first_role(m);
            assert(firsts(roles, k).contains(r));
            let q = choose|q: int| 0 <= q < k && q < roles.len() && #[trigger] roles[q] == r;
            assert(text_lt(roles[q], roles[k]));
        }
        assert(before_on_edge(m, item));
    }
}

/// Checks the edge `out[i]` and reports what is found on it.
#[verifier::spinoff_prover]
fn check_edge(
    g: &Analysis,
    subs: &Subscriptions,
    Ghost(initial): Ghost<int>,
    nothing: &NameSet<EventType>,
    out: &Vec<EdgeId>,
    i: usize,
    errors: &mut Vec<Error>,
)
    requires
        g.wf(),
        subs.wf(),
        analysed(g, subs, initial),
        nothing@.len() == 0,
        i < out@.len(),
        lists_outgoing(g, g.source(out@[i as int] as int), out@),
        checked(g, initial, out@[i as int] as int),
    ensures
        appended(
            views(old(errors)@),
            views(final(errors)@),
            findings_at(g, subs, initial, out@[i as int] as int),
        ),
        ordered(g, initial, views(old(errors)@), views(final(errors)@)),
{
    let edge = out[i];
    let ghost e = edge as int;
    let ghost start = views(errors@);
    let ghost none = Set::<Text>::empty();
    check_determinism(g, subs, Ghost(initial), out, i, errors);
    let ghost after_determinism = views(errors@);
    let label = g.edge_weight(edge);
    let log = &label.log_type;
    let ghost names = log_of(g, e);
    let ends = g.edge_endpoints(edge).unwrap();
    let target = ends.1;
    proof {
        lemma_target_analysed(g, subs, initial, e);
        assert(texts(log@) == names);
    }
    // causal consistency
    let own = log_filter(log, subscription(subs, nothing, &label.role));
    let silent = mask_is_clear(&own);
    if silent {
        errors.push(Error::ActiveRoleNotSubscribed(edge));
    }
    let ghost after_own = views(errors@);
    proof {
        lemma_clear_mask(subs, role_of(g, e), names, own@);
        let item = ErrorView::ActiveRoleNotSubscribed(e);
        let s2 = if silent {
            set![item]
        } else {
            Set::empty()
        };
        if silent {
            assert(after_own =~= after_determinism.push(item));
            lemma_appended_one(after_determinism, item);
        } else {
            lemma_appended_none(after_determinism);
        }
        let s1 = part_determinism(g, subs, initial, e);
        assert(s1.disjoint(s2));
        lemma_appended_join(start, after_determinism, after_own, s1, s2);
        lemma_ordered_one(g, initial, after_determinism, item);
        assert forall|m: ErrorView| #[trigger] s1.contains(m) implies precedes(g, initial, m, item) by {
            assert(stage(m) < stage(item));
        }
        lemma_ordered_join(g, initial, start, after_determinism, after_own, s1, s2);
        assert(firsts(node_at(g, target as int).active@, 0) =~= none);
        assert(s1.union(s2) =~= part_edge(g, subs, initial, e, none, none));
    }
    let actives = &g.node_weight(target).active;
    let mut k: usize = 0;
    while k < actives.len()
        invariant
            k <= actives@.len(),
            g.wf(),
            subs.wf(),
            analysed(g, subs, initial),
            nothing@.len() == 0,
            e == edge as int,
            checked(g, initial, e),
            target == g.target(e),
            actives@ == node_at(g, target as int).active@,
            actives.wf(),
            none == Set::<Text>::empty(),
            forall|r: Text| #[trigger] actives@.contains(r) <==> acts_at(g, g.target(e), r),
            appended(
                start,
                views(errors@),
                part_edge(g, subs, initial, e, firsts(actives@, k as int), none),
            ),
            ordered(g, initial, start, views(errors@)),
        decreases actives@.len() - k,
    {
        let active = actives.get(k);
        let ghost before = views(errors@);
        assert(actives@.contains(active@));
        check_active(g, subs, Ghost(initial), nothing, edge, active, errors);
        proof {
            lemma_firsts_step(actives@, k as int);
            let old_set = part_edge(g, subs, initial, e, firsts(actives@, k as int), none);
            let step = part_active(g, subs, initial, e, active@);
            let new_set = part_edge(g, subs, initial, e, firsts(actives@, k + 1), none);
            assert(old_set.disjoint(step));
            assert(old_set.union(step) =~= new_set);
            lemma_appended_join(start, before, views(errors@), old_set, step);
            lemma_active_in_order(g, subs, initial, e, actives@, k as int);
            lemma_ordered_join(g, initial, start, before, views(errors@), old_set, step);
        }
        k += 1;
    }
    // choice determinacy
    let roles = &g.node_weight(target).roles;
    let ghost all_actives = firsts(actives@, actives@.len() as int);
    let mut k: usize = 0;
    proof {
        lemma_target_analysed(g, subs, initial, e);
        assert(firsts(roles@, 0) =~= none);
        assert(part_edge(g, subs, initial, e, all_actives, none) =~= part_edge(
            g,
            subs,
            initial,
            e,
            all_actives,
            firsts(roles@, 0),
        ));
    }
    while k < roles.len()
        invariant
            k <= roles@.len(),
            g.wf(),
            subs.wf(),
            nothing@.len() == 0,
            e == edge as int,
            checked(g, initial, e),
            target == g.target(e),
            roles@ == roles_at(g, target as int),
            roles.wf(),
            *label == g.labels()[e],
            names == log_of(g, e),
            names == texts(label.log_type@),
            names.len() > 0,
            forall|r: Text| #[trigger] roles@.contains(r) <==> involved_at(g, subs, g.target(e), r),
            appended(
                start,
                views(errors@),
                part_edge(g, subs, initial, e, all_actives, firsts(roles@, k as int)),
            ),
            ordered(g, initial, start, views(errors@)),
        decreases roles@.len() - k,
    {
        let later = roles.get(k);
        let ghost before = views(errors@);
        let guarded = subscription(subs, nothing, later).contains(&label.log_type[0]);
        if !guarded {
            errors.push(Error::LaterInvolvedNotGuarded(edge, later.clone()));
        }
        proof {
            assert(label.log_type@[0]@ == names[0]);
            assert(guarded == subs.observes(later@, guard_of(g, e)));
            assert(roles@.contains(later@));
            lemma_firsts_step(roles@, k as int);
            let item = ErrorView::LaterInvolvedNotGuarded(e, later@);
            let old_set = part_edge(g, subs, initial, e, all_actives, firsts(roles@, k as int));
            let new_set = part_edge(g, subs, initial, e, all_actives, firsts(roles@, k + 1));
            let step = if guarded {
                Set::<ErrorView>::empty()
            } else {
                set![item]
            };
            if guarded {
                lemma_appended_none(before);
            } else {
                assert(views(errors@) =~= before.push(item));
                lemma_appended_one(before, item);
            }
            assert(old_set.disjoint(step));
            assert(old_set.union(step) =~= new_set);
            lemma_appended_join(start, before, views(errors@), old_set, step);
            lemma_ordered_one(g, initial, before, item);
            lemma_guarded_in_order(g, subs, initial, e, all_actives, roles@, k as int);
            lemma_ordered_join(g, initial, start, before, views(errors@), old_set, step);
        }
        k += 1;
    }
    proof {
        let last = part_edge(
            g,
            subs,
            initial,
            e,
            all_actives,
            firsts(roles@, roles@.len() as int),
        );
        assert forall|m: ErrorView| last.contains(m) <==> findings_at(g, subs, initial, e).contains(
            m,
        ) by {
            if findings_at(g, subs, initial, e).contains(m) {
                match m {
                    ErrorView::LaterActiveRoleNotSubscribed(_, r) => {
                        assert(actives@.contains(r));
                        let q = choose|q: int| 0 <= q < actives@.len() && actives@[q] == r;
                        assert(actives@[q] == r);
                    },
                    ErrorView::LaterInvolvedRoleMoreSubscribed { active, .. } => {
                        assert(actives@.contains(active));
                        let q = choose|q: int| 0 <= q < actives@.len() && actives@[q] == active;
                        assert(actives@[q] == active);
                    },
                    ErrorView::LaterInvolvedNotGuarded(_, r) => {
                        assert(roles@.contains(r));
                        let q = choose|q: int| 0 <= q < roles@.len() && roles@[q] == r;
                        assert(roles@[q] == r);
                    },
                    _ => {},
                }
            }
        }
        assert(last =~= findings_at(g, subs, initial, e));
    }
}


/// The findings at the edges of `edges`.
pub open spec fn findings_from(
    g: &Analysis,
    subs: &Subscriptions,
    initial: int,
    edges: Set<int>,
) -> Set<ErrorView> {
    Set::new(
        |m: ErrorView|
            violation(g, subs, initial, m) && edge_of(m) is Some && edges.contains(edge_of(m)->0),
    )
}

/// The findings on the edges walked so far precede the findings on the
/// edge at place `i` of the edges that leave the state at place `k`.
proof fn lemma_edge_in_order(
    g: &Analysis,
    subs: &Subscriptions,
    initial: int,
    order: Seq<usize>,
    k: int,
    out: Seq<usize>,
    i: int,
    seen: Set<int>,
)
    requires
        ids(order) == walk(g, initial),
        order.no_duplicates(),
        0 <= k < order.len(),
        0 <= i < out.len(),
        lists_outgoing(g, order[k] as int, out),
        forall|x: int| #[trigger]
            seen.contains(x) ==> picked(order, k).contains(g.source(x)) || exists|p: int|
                0 <= p < i && #[trigger] out[p] == x,
    ensures
        forall|m1: ErrorView, m2: ErrorView|
            #[trigger] findings_from(g, subs, initial, seen).contains(m1) && #[trigger] findings_at(
                g,
                subs,
                initial,
                out[i] as int,
            ).contains(m2) ==> precedes(g, initial, m1, m2),
{
    let steps = walk(g, initial);
    assert(steps.no_duplicates()) by {
        assert forall|a: int, b: int| 0 <= a < steps.len() && 0 <= b < steps.len() && a != b implies steps[a]
            != steps[b] by {
            assert(order[a] != order[b]);
        }
    }
    let e = out[i] as int;
    assert(steps[k] == g.source(e));
    lemma_place_found(steps, k);
    assert forall|m1: ErrorView, m2: ErrorView|
        #[trigger] findings_from(g, subs, initial, seen).contains(m1) && #[trigger] findings_at(
            g,
            subs,
            initial,
            e,
        ).contains(m2) implies precedes(g, initial, m1, m2) by {
        let x = edge_of(m1)->0;
        assert(seen.contains(x));
        if picked(order, k).contains(g.source(x)) {
            let q = choose|q: int| 0 <= q < k && q < order.len() && #[trigger] order[q] == g.source(x);
            assert(steps[q] == g.source(x));
            lemma_place_found(steps, q);
        } else {
            let p = choose|p: int| 0 <= p < i && #[trigger] out[p] == x;
            assert(out[p] > out[i]);
            assert(g.source(out[p] as int) == order[k]);
        }
    }
}

/// Checks every transition that the initial state reaches against the
/// subscriptions. A finding is reported exactly where the protocol gives
/// rise to it, and once.
///
/// A transition without events is not checked: nothing is found on it,
/// and it does not count as a second transition with the guard or the
/// command of another. The order of the findings is that of the walk: state
/// by state in the order of the search, at each state the transitions that
/// leave it, newest first, and for each transition first its guard and
/// command, then the role that acts on it, then the active roles at its
/// target, each followed by the involved roles that observe more, then the
/// involved roles that do not observe the guard. Roles come in the order
/// of their names.
///
/// The protocol has been analysed.
#[verifier::spinoff_prover]
pub fn well_formed(graph: &Analysis, initial: NodeId, subs: &Subscriptions) -> (errors: Vec<Error>)
    requires
        graph.wf(),
        subs.wf(),
        initial < graph.shape().nodes,
        analysed(graph, subs, initial as int),
    ensures
        views(errors@).no_duplicates(),
        forall|m: ErrorView|
            views(errors@).contains(m) <==> violation(graph, subs, initial as int, m),
        in_order(graph, initial as int, views(errors@)),
{
    let mut errors: Vec<Error> = Vec::new();
    let nothing: NameSet<EventType> = NameSet::new();
    let keep = graph.every_edge();
    let order = graph.dfs(&keep, initial);
    let ghost start = views(errors@);
    let ghost init = initial as int;
    let ghost mut seen = Set::<int>::empty();
    proof {
        assert(start =~= Seq::<ErrorView>::empty());
        lemma_appended_none(start);
        assert(findings_from(graph, subs, init, seen) =~= Set::<ErrorView>::empty());
        assert(keep@ == graph.shape().all());
    }
    let mut k: usize = 0;
    while k < order.len()
        invariant
            k <= order@.len(),
            graph.wf(),
            subs.wf(),
            init == initial as int,
            analysed(graph, subs, init),
            nothing@.len() == 0,
            start == Seq::<ErrorView>::empty(),
            order@.no_duplicates(),
            forall|j: int| 0 <= j < order@.len() ==> (#[trigger] order@[j]) < graph.shape().nodes,
            forall|j: int|
                0 <= j < order@.len() ==> graph.shape().connects(init, #[trigger] order@[j] as int),
            forall|n: int| #[trigger]
                graph.shape().connects(init, n) ==> order@.contains(n as usize),
            forall|x: int|
                seen.contains(x) <==> graph.shape().has_edge(x) && picked(order@, k as int).contains(
                    graph.source(x),
                ),
            appended(start, views(errors@), findings_from(graph, subs, init, seen)),
            ids(order@) == walk(graph, init),
            ordered(graph, init, start, views(errors@)),
        decreases order@.len() - k,
    {
        let node = order[k];
        let out = graph.outgoing(node);
        let ghost seen0 = seen;
        let mut i: usize = 0;
        proof {
            assert forall|e: int|
                graph.shape().has_edge(e) && #[trigger] graph.source(e) == node implies exists|
                p: int,
            |
                0 <= p < out@.len() && #[trigger] out@[p] == e by {
                assert(out@.contains(e as usize));
                let p = choose|p: int| 0 <= p < out@.len() && out@[p] == e as usize;
                assert(out@[p] == e);
            }
            assert(lists_outgoing(graph, node as int, out@));
            assert(!picked(order@, k as int).contains(node as int)) by {
                if picked(order@, k as int).contains(node as int) {
                    let j = choose|j: int|
                        0 <= j < k && j < order@.len() && #[trigger] order@[j] == node;
                    assert(order@[j] == order@[k as int]);
                }
            }
        }
        while i < out.len()
            invariant
                i <= out@.len(),
                graph.wf(),
                subs.wf(),
                analysed(graph, subs, init),
                nothing@.len() == 0,
                node < graph.shape().nodes,
                graph.shape().connects(init, node as int),
                lists_outgoing(graph, node as int, out@),
                forall|x: int|
                    seen.contains(x) <==> seen0.contains(x) || exists|p: int|
                        0 <= p < i && #[trigger] out@[p] == x,
                forall|x: int| seen0.contains(x) ==> graph.source(x) != node,
                forall|x: int|
                    seen0.contains(x) ==> picked(order@, k as int).contains(#[trigger] graph.source(x)),
                appended(start, views(errors@), findings_from(graph, subs, init, seen)),
                k < order@.len(),
                node == order@[k as int],
                order@.no_duplicates(),
                ids(order@) == walk(graph, init),
                ordered(graph, init, start, views(errors@)),
            decreases out@.len() - i,
        {
            let ghost before = views(errors@);
            let ghost e = out@[i as int] as int;
            let has_events = graph.edge_weight(out[i]).log_type.len() > 0;
            proof {
                assert(texts(graph.labels()[e].log_type@) == log_of(graph, e));
                assert(has_events == checked(graph, init, e));
            }
            if has_events {
                check_edge(graph, subs, Ghost(init), &nothing, &out, i, &mut errors);
            } else {
                proof {
                    lemma_appended_none(before);
                    assert(findings_at(graph, subs, init, e) =~= Set::<ErrorView>::empty());
                }
            }
            proof {
                let old_set = findings_from(graph, subs, init, seen);
                let step = findings_at(graph, subs, init, e);
                assert(!seen.contains(e)) by {
                    if seen.contains(e) {
                        let p = choose|p: int| 0 <= p < i && #[trigger] out@[p] == e;
                        assert(out@[p] > out@[i as int]);
                    }
                }
                assert(old_set.disjoint(step));
                let grown = seen.insert(e);
                assert(old_set.union(step) =~= findings_from(graph, subs, init, grown));
                lemma_appended_join(start, before, views(errors@), old_set, step);
                lemma_edge_in_order(graph, subs, init, order@, k as int, out@, i as int, seen);
                lemma_ordered_join(graph, init, start, before, views(errors@), old_set, step);
                assert forall|x: int|
                    grown.contains(x) <==> seen0.contains(x) || exists|p: int|
                        0 <= p < i + 1 && #[trigger] out@[p] == x by {
                    if seen.contains(x) && !seen0.contains(x) {
                        let p = choose|p: int| 0 <= p < i && #[trigger] out@[p] == x;
                        assert(0 <= p < i + 1);
                    }
                    if exists|p: int| 0 <= p < i + 1 && #[trigger] out@[p] == x {
                        let p = choose|p: int| 0 <= p < i + 1 && #[trigger] out@[p] == x;
                        if p < i {
                            assert(seen.contains(x));
                        }
                    }
                }
                seen = grown;
            }
            i += 1;
        }
        proof {
            assert forall|x: int|
                seen.contains(x) <==> graph.shape().has_edge(x) && picked(order@, k + 1).contains(
                    graph.source(x),
                ) by {
                let src = graph.source(x);
                if seen0.contains(x) {
                    let j = choose|j: int|
                        0 <= j < k && j < order@.len() && #[trigger] order@[j] == src;
                    assert(0 <= j < k + 1);
                }
                if exists|p: int| 0 <= p < i && #[trigger] out@[p] == x {
                    let p = choose|p: int| 0 <= p < i && #[trigger] out@[p] == x;
                    assert(graph.source(out@[p] as int) == node);
                    assert(order@[k as int] == node);
                }
                if graph.shape().has_edge(x) && picked(order@, k + 1).contains(src) {
                    let j = choose|j: int|
                        0 <= j < k + 1 && j < order@.len() && #[trigger] order@[j] == src;
                    if j < k {
                        assert(picked(order@, k as int).contains(src));
                    } else {
                        assert(src == node);
                    }
                }
            }
        }
        k += 1;
    }
    proof {
        let all = findings_from(graph, subs, init, seen);
        assert forall|m: ErrorView| views(errors@).contains(m) <==> violation(
            graph,
            subs,
            init,
            m,
        ) by {
            assert(views(errors@).skip(0) =~= views(errors@));
            if violation(graph, subs, init, m) {
                let e = edge_of(m)->0;
                assert(checked(graph, init, e));
                let src = graph.source(e);
                assert(order@.contains(src as usize));
                let j = choose|j: int| 0 <= j < order@.len() && order@[j] == src as usize;
                assert(order@[j] == src);
                assert(picked(order@, order@.len() as int).contains(src));
                assert(all.contains(m));
            }
        }
        assert(views(errors@).skip(0) =~= views(errors@));
        assert(in_order(graph, init, views(errors@)));
    }
    errors
}

} // verus!
