//! The projection of a swarm protocol to the machine of one role: the
//! machine that is left when every transition is reduced to what the role
//! observes of it.

use crate::compare::NO_NODE;
use crate::graph::{dfs_order, ids, Multigraph, NodeId, MAX_ITEMS};
use crate::machine::{anchored, machine_names, way_back, MachineGraph};
use crate::sets::{NameSet, Subscriptions};
use crate::swarm::{cmd_of, log_meets, log_of, names_of, role_of, SwarmGraph};
use crate::text::Text;
use crate::types::{
    dup_all, texts, EventType, MachineLabel, MachineLabelView, Named, Role, State,
};
use vstd::prelude::*;

verus! {

/// The mathematical model of a machine: the names of its nodes, where they
/// have one, and the ends and label of each edge.
pub ghost struct MachineModel {
    pub names: Seq<Option<Text>>,
    pub edges: Seq<(int, int)>,
    pub labels: Seq<MachineLabelView>,
}

/// The models of a list of labels.
pub open spec fn label_views(labels: Seq<MachineLabel>) -> Seq<MachineLabelView> {
    labels.map_values(|l: MachineLabel| l@)
}

/// The model of a machine graph.
pub open spec fn model_of(g: &MachineGraph) -> MachineModel {
    MachineModel { names: machine_names(g), edges: g.shape().edges, labels: label_views(g.labels()) }
}

/// Whether a machine of this size can be held by a graph.
pub open spec fn fits(m: MachineModel) -> bool {
    m.names.len() <= MAX_ITEMS && m.edges.len() <= MAX_ITEMS
}

/// Whether the role with subscription `sub` observes an event of `log`.
pub open spec fn interesting(sub: Seq<Text>, log: Seq<Text>) -> bool {
    exists|i: int| 0 <= i < log.len() && sub.contains(#[trigger] log[i])
}

/// For each edge of the swarm, whether the role with subscription `sub`
/// observes an event of its log.
pub open spec fn interest(swarm: &SwarmGraph, sub: Seq<Text>) -> Seq<bool> {
    Seq::new(swarm.shape().edges.len(), |e: int| interesting(sub, log_of(swarm, e)))
}

/// The events of `log` that are in `sub`, in their order.
pub open spec fn observed(sub: Seq<Text>, log: Seq<Text>) -> Seq<Text>
    decreases log.len(),
{
    if log.len() == 0 {
        Seq::empty()
    } else {
        let before = observed(sub, log.drop_last());
        if sub.contains(log.last()) {
            before.push(log.last())
        } else {
            before
        }
    }
}

/// The machine with one more node, named `name`.
pub open spec fn add_named(m: MachineModel, name: Text) -> MachineModel {
    MachineModel { names: m.names.push(Some(name)), ..m }
}

/// The machine with one more edge.
pub open spec fn add_edge(m: MachineModel, from: int, to: int, label: MachineLabelView) -> MachineModel {
    MachineModel { edges: m.edges.push((from, to)), labels: m.labels.push(label), ..m }
}

/// The machine with a self-loop at node `at` for each edge of `out` on
/// which `role` acts and of which it observes an event.
pub open spec fn commands_at(
    m: MachineModel,
    swarm: &SwarmGraph,
    keep: Seq<bool>,
    role: Text,
    at: int,
    out: Seq<int>,
) -> MachineModel
    decreases out.len(),
{
    if out.len() == 0 {
        m
    } else {
        let before = commands_at(m, swarm, keep, role, at, out.drop_last());
        let e = out.last();
        if keep[e] && role_of(swarm, e) == role {
            add_edge(
                before,
                at,
                at,
                MachineLabelView::Execute { cmd: cmd_of(swarm, e), log: log_of(swarm, e) },
            )
        } else {
            before
        }
    }
}

/// The machine after the first pass over the swarm nodes `order`: one named
/// node for each of them, in their order, and the commands of the role at
/// each.
pub open spec fn first_pass(swarm: &SwarmGraph, keep: Seq<bool>, role: Text, order: Seq<int>) -> MachineModel
    decreases order.len(),
{
    if order.len() == 0 {
        MachineModel { names: Seq::empty(), edges: Seq::empty(), labels: Seq::empty() }
    } else {
        let before = first_pass(swarm, keep, role, order.drop_last());
        let node = order.last();
        commands_at(
            add_named(before, names_of(swarm)[node]),
            swarm,
            keep,
            role,
            order.len() - 1,
            swarm.shape().outgoing(node),
        )
    }
}

/// The machine with a chain of inputs from node `from` to node `to`, one
/// for each event of `evs`, over new nodes without names.
pub open spec fn add_chain(m: MachineModel, from: int, to: int, evs: Seq<Text>) -> MachineModel {
    if evs.len() == 0 {
        m
    } else {
        let base = m.names.len() as int;
        let last = evs.len() - 1;
        MachineModel {
            names: m.names + Seq::new((evs.len() - 1) as nat, |k: int| None::<Text>),
            edges: m.edges + Seq::new(
                evs.len(),
                |k: int|
                    (if k == 0 {
                        from
                    } else {
                        base + k - 1
                    }, if k == last {
                        to
                    } else {
                        base + k
                    }),
            ),
            labels: m.labels + Seq::new(evs.len(), |k: int| MachineLabelView::Input { event: evs[k] }),
        }
    }
}

/// The machine with a chain into node `to` for each edge of `incoming` of
/// which the role observes an event. The chain starts at the machine node
/// of the source of the edge.
pub open spec fn inputs_at(
    m: MachineModel,
    swarm: &SwarmGraph,
    keep: Seq<bool>,
    sub: Seq<Text>,
    positions: Seq<usize>,
    to: int,
    incoming: Seq<int>,
) -> MachineModel
    decreases incoming.len(),
{
    if incoming.len() == 0 {
        m
    } else {
        let before = inputs_at(m, swarm, keep, sub, positions, to, incoming.drop_last());
        let e = incoming.last();
        if keep[e] {
            add_chain(before, positions[swarm.source(e)] as int, to, observed(sub, log_of(swarm, e)))
        } else {
            before
        }
    }
}

/// The machine after the second pass over the first `upto` of the swarm
/// nodes `order`: the inputs into each.
pub open spec fn second_pass(
    m: MachineModel,
    swarm: &SwarmGraph,
    keep: Seq<bool>,
    sub: Seq<Text>,
    positions: Seq<usize>,
    order: Seq<int>,
) -> MachineModel
    decreases order.len(),
{
    if order.len() == 0 {
        m
    } else {
        let before = second_pass(m, swarm, keep, sub, positions, order.drop_last());
        let node = order.last();
        inputs_at(
            before,
            swarm,
            keep,
            sub,
            positions,
            positions[node] as int,
            swarm.shape().incoming(node),
        )
    }
}

/// For each swarm node, its place in `order`, or the mark of a node that
/// is not in `order`.
pub open spec fn places(nodes: nat, order: Seq<int>) -> Seq<usize> {
    Seq::new(
        nodes,
        |n: int|
            if order.contains(n) {
                order.index_of(n) as usize
            } else {
                NO_NODE
            },
    )
}

/// The swarm nodes that the projection visits: those that `initial`
/// reaches over the edges of which the role observes an event, in the
/// order of the search.
pub open spec fn visited(swarm: &SwarmGraph, sub: Seq<Text>, initial: int) -> Seq<int> {
    dfs_order(swarm.shape().nodes, swarm.shape().edges, interest(swarm, sub), initial)
}

/// The machine of the role with subscription `sub` and name `role`.
pub open spec fn projection(swarm: &SwarmGraph, sub: Seq<Text>, role: Text, initial: int) -> MachineModel {
    let keep = interest(swarm, sub);
    let order = visited(swarm, sub, initial);
    second_pass(
        first_pass(swarm, keep, role, order),
        swarm,
        keep,
        sub,
        places(swarm.shape().nodes, order),
        order,
    )
}

/// Whether every edge of which the role observes an event, and which leads
/// to a visited node, comes from a visited node.
pub open spec fn sources_visited(swarm: &SwarmGraph, sub: Seq<Text>, initial: int) -> bool {
    forall|e: int|
        swarm.shape().has_edge(e) && #[trigger] interest(swarm, sub)[e] && visited(
            swarm,
            sub,
            initial,
        ).contains(swarm.target(e)) ==> visited(swarm, sub, initial).contains(swarm.source(e))
}


/// Whether machine `a` has no more nodes and no more edges than `b`.
pub open spec fn size_le(a: MachineModel, b: MachineModel) -> bool {
    a.names.len() <= b.names.len() && a.edges.len() <= b.edges.len()
}

/// Adding the commands of more edges does not shrink the machine.
proof fn lemma_commands_grow(
    m: MachineModel,
    swarm: &SwarmGraph,
    keep: Seq<bool>,
    role: Text,
    at: int,
    out: Seq<int>,
    j: int,
)
    requires
        0 <= j <= out.len(),
    ensures
        size_le(
            commands_at(m, swarm, keep, role, at, out.take(j)),
            commands_at(m, swarm, keep, role, at, out),
        ),
        commands_at(m, swarm, keep, role, at, out).names == m.names,
        size_le(m, commands_at(m, swarm, keep, role, at, out)),
    decreases out.len(),
{
    if out.len() == 0 {
        assert(out.take(j) =~= out);
    } else {
        let shorter = out.drop_last();
        if j == out.len() {
            assert(out.take(j) =~= out);
            lemma_commands_grow(m, swarm, keep, role, at, shorter, 0);
        } else {
            assert(out.take(j) =~= shorter.take(j));
            lemma_commands_grow(m, swarm, keep, role, at, shorter, j);
        }
    }
}

/// Visiting more nodes in the first pass does not shrink the machine, and
/// the pass names one node for each node it visits.
proof fn lemma_first_pass_grow(swarm: &SwarmGraph, keep: Seq<bool>, role: Text, order: Seq<int>, i: int)
    requires
        0 <= i <= order.len(),
    ensures
        size_le(first_pass(swarm, keep, role, order.take(i)), first_pass(swarm, keep, role, order)),
        first_pass(swarm, keep, role, order).names.len() == order.len(),
    decreases order.len(),
{
    if order.len() == 0 {
        assert(order.take(i) =~= order);
    } else {
        let shorter = order.drop_last();
        let before = first_pass(swarm, keep, role, shorter);
        let node = order.last();
        lemma_commands_grow(
            add_named(before, names_of(swarm)[node]),
            swarm,
            keep,
            role,
            order.len() - 1,
            swarm.shape().outgoing(node),
            0,
        );
        if i == order.len() {
            assert(order.take(i) =~= order);
            lemma_first_pass_grow(swarm, keep, role, shorter, 0);
        } else {
            assert(order.take(i) =~= shorter.take(i));
            lemma_first_pass_grow(swarm, keep, role, shorter, i);
        }
    }
}

/// Adding the inputs of more edges does not shrink the machine.
proof fn lemma_inputs_grow(
    m: MachineModel,
    swarm: &SwarmGraph,
    keep: Seq<bool>,
    sub: Seq<Text>,
    positions: Seq<usize>,
    to: int,
    incoming: Seq<int>,
    j: int,
)
    requires
        0 <= j <= incoming.len(),
    ensures
        size_le(
            inputs_at(m, swarm, keep, sub, positions, to, incoming.take(j)),
            inputs_at(m, swarm, keep, sub, positions, to, incoming),
        ),
        size_le(m, inputs_at(m, swarm, keep, sub, positions, to, incoming)),
    decreases incoming.len(),
{
    if incoming.len() == 0 {
        assert(incoming.take(j) =~= incoming);
    } else {
        let shorter = incoming.drop_last();
        if j == incoming.len() {
            assert(incoming.take(j) =~= incoming);
            lemma_inputs_grow(m, swarm, keep, sub, positions, to, shorter, 0);
        } else {
            assert(incoming.take(j) =~= shorter.take(j));
            lemma_inputs_grow(m, swarm, keep, sub, positions, to, shorter, j);
        }
    }
}

/// Visiting more nodes in the second pass does not shrink the machine.
proof fn lemma_second_pass_grow(
    m: MachineModel,
    swarm: &SwarmGraph,
    keep: Seq<bool>,
    sub: Seq<Text>,
    positions: Seq<usize>,
    order: Seq<int>,
    i: int,
)
    requires
        0 <= i <= order.len(),
    ensures
        size_le(
            second_pass(m, swarm, keep, sub, positions, order.take(i)),
            second_pass(m, swarm, keep, sub, positions, order),
        ),
        size_le(m, second_pass(m, swarm, keep, sub, positions, order)),
    decreases order.len(),
{
    if order.len() == 0 {
        assert(order.take(i) =~= order);
    } else {
        let shorter = order.drop_last();
        let before = second_pass(m, swarm, keep, sub, positions, shorter);
        let node = order.last();
        lemma_inputs_grow(
            before,
            swarm,
            keep,
            sub,
            positions,
            positions[node] as int,
            swarm.shape().incoming(node),
            0,
        );
        if i == order.len() {
            assert(order.take(i) =~= order);
            lemma_second_pass_grow(m, swarm, keep, sub, positions, shorter, 0);
        } else {
            assert(order.take(i) =~= shorter.take(i));
            lemma_second_pass_grow(m, swarm, keep, sub, positions, shorter, i);
        }
    }
}


/// `Itertools::tuple_windows` on pairs: each item of `states` with its
/// successor, in order.
#[verifier::external_body]
fn pair_windows(states: &Vec<usize>) -> (pairs: Vec<(usize, usize)>)
    ensures
        pairs@.len() + 1 == states@.len() || (pairs@.len() == 0 && states@.len() == 0),
        forall|k: int|
            0 <= k < pairs@.len() ==> #[trigger] pairs@[k] == (states@[k], states@[k + 1]),
{
    itertools::Itertools::tuple_windows(states.iter().copied()).collect()
}

/// For each edge of the swarm, whether its log holds an event of `sub`.
fn interest_mask(swarm: &SwarmGraph, sub: &NameSet<EventType>) -> (keep: Vec<bool>)
    requires
        swarm.wf(),
    ensures
        keep@ == interest(swarm, sub@),
{
    let mut keep: Vec<bool> = Vec::new();
    let mut e: usize = 0;
    while e < swarm.edge_count()
        invariant
            swarm.wf(),
            e <= swarm.shape().edges.len(),
            keep@.len() == e,
            forall|k: int| 0 <= k < e ==> #[trigger] keep@[k] == interesting(sub@, log_of(swarm, k)),
        decreases swarm.shape().edges.len() - e,
    {
        let label = swarm.edge_weight(e);
        let hit = log_meets(&label.log_type, sub);
        proof {
            let log = log_of(swarm, e as int);
            assert(log == texts(label.log_type@));
            if hit {
                let i = choose|i: int|
                    0 <= i < label.log_type@.len() && sub@.contains(#[trigger] texts(label.log_type@)[i]);
                assert(sub@.contains(log[i]));
            }
            if interesting(sub@, log) {
                let i = choose|i: int| 0 <= i < log.len() && sub@.contains(#[trigger] log[i]);
                assert(sub@.contains(texts(label.log_type@)[i]));
            }
        }
        keep.push(hit);
        e += 1;
    }
    assert(keep@ =~= interest(swarm, sub@));
    keep
}

/// The events of `log` that are in `sub`, in their order.
fn observed_events(log: &Vec<EventType>, sub: &NameSet<EventType>) -> (evs: Vec<EventType>)
    ensures
        texts(evs@) == observed(sub@, texts(log@)),
{
    let mut evs: Vec<EventType> = Vec::new();
    let ghost names = texts(log@);
    let mut i: usize = 0;
    proof {
        assert(names.take(0) =~= Seq::<Text>::empty());
        assert(texts(evs@) =~= Seq::<Text>::empty());
    }
    while i < log.len()
        invariant
            i <= log@.len(),
            names == texts(log@),
            texts(evs@) == observed(sub@, names.take(i as int)),
        decreases log@.len() - i,
    {
        let ghost before = texts(evs@);
        if sub.contains(&log[i]) {
            evs.push(log[i].clone());
            proof {
                assert(texts(evs@) =~= before.push(log@[i as int]@));
            }
        }
        proof {
            assert(names.take(i + 1).drop_last() =~= names.take(i as int));
            assert(names.take(i + 1).last() == log@[i as int]@);
        }
        i += 1;
    }
    proof {
        assert(names.take(names.len() as int) =~= names);
    }
    evs
}

/// One more edge at the head of the list of its target, and of no other
/// node.
pub proof fn lemma_incoming_push(edges: Seq<(int, int)>, a: int, b: int, n: int)
    ensures
        crate::graph::incident(edges.push((a, b)), n, true) == if b == n {
            seq![edges.len() as int] + crate::graph::incident(edges, n, true)
        } else {
            crate::graph::incident(edges, n, true)
        },
{
    assert(edges.push((a, b)).drop_last() =~= edges);
}

/// A new edge leaves every other node with its way back.
proof fn lemma_way_back_kept(before: &MachineGraph, after: &MachineGraph, a: int, b: int, n: int)
    requires
        before.wf(),
        after.shape().edges == before.shape().edges.push((a, b)),
        way_back(before, n),
        n != b,
    ensures
        way_back(after, n),
{
    lemma_incoming_push(before.shape().edges, a, b, n);
    crate::graph::lemma_incident(before.shape().edges, n, true);
    let first = before.shape().incoming(n)[0];
    assert(before.shape().incoming(n).contains(first));
    assert(after.shape().edges[first] == before.shape().edges[first]);
}

/// A new edge from a lower node gives its target a way back.
proof fn lemma_way_back_new(before: &MachineGraph, after: &MachineGraph, a: int, b: int)
    requires
        after.shape().edges == before.shape().edges.push((a, b)),
        0 <= a < b,
    ensures
        way_back(after, b),
{
    lemma_incoming_push(before.shape().edges, a, b, b);
    let first = after.shape().incoming(b)[0];
    assert(first == before.shape().edges.len());
    assert(after.shape().edges[first] == (a, b));
}

/// A new edge into a node with a name leaves every node without a name
/// with its way back.
proof fn lemma_anchored_edge(before: &MachineGraph, after: &MachineGraph, a: int, b: int)
    requires
        before.wf(),
        anchored(before),
        after.shape().nodes == before.shape().nodes,
        after.shape().edges == before.shape().edges.push((a, b)),
        after.nodes() == before.nodes(),
        0 <= b < before.shape().nodes,
        before.nodes()[b] is Some,
    ensures
        anchored(after),
{
    assert forall|n: int| 0 <= n < after.shape().nodes && (#[trigger] after.nodes()[n]) is None implies way_back(
        after,
        n,
    ) by {
        assert(before.nodes()[n] is None);
        lemma_way_back_kept(before, after, a, b, n);
    }
}

/// Adds a self-loop at machine node `m_node` for each edge that leaves
/// swarm node `s_node`, on which `role` acts and of which it observes an
/// event. Returns whether the graph could hold them all.
#[verifier::spinoff_prover]
fn add_commands(
    machine: &mut MachineGraph,
    swarm: &SwarmGraph,
    keep: &Vec<bool>,
    role: &Role,
    s_node: NodeId,
    m_node: NodeId,
) -> (ok: bool)
    requires
        old(machine).wf(),
        anchored(old(machine)),
        swarm.wf(),
        keep@.len() == swarm.shape().edges.len(),
        s_node < swarm.shape().nodes,
        m_node < old(machine).shape().nodes,
        old(machine).nodes()[m_node as int] is Some,
    ensures
        ok ==> final(machine).wf() && anchored(final(machine)) && model_of(final(machine))
            == commands_at(
            model_of(old(machine)),
            swarm,
            keep@,
            role@,
            m_node as int,
            swarm.shape().outgoing(s_node as int),
        ),
        ok ==> final(machine).nodes() == old(machine).nodes(),
        !ok ==> !fits(
            commands_at(
                model_of(old(machine)),
                swarm,
                keep@,
                role@,
                m_node as int,
                swarm.shape().outgoing(s_node as int),
            ),
        ),
{
    let out = swarm.outgoing(s_node);
    let ghost all = ids(out@);
    let ghost m0 = model_of(machine);
    let mut j: usize = 0;
    proof {
        assert(all.take(0) =~= Seq::<int>::empty());
    }
    while j < out.len()
        invariant
            j <= out@.len(),
            machine.wf(),
            anchored(machine),
            swarm.wf(),
            keep@.len() == swarm.shape().edges.len(),
            all == ids(out@),
            all == swarm.shape().outgoing(s_node as int),
            m0 == model_of(old(machine)),
            machine.nodes() == old(machine).nodes(),
            forall|k: int| 0 <= k < out@.len() ==> swarm.shape().has_edge(#[trigger] out@[k] as int),
            m_node < machine.shape().nodes,
            machine.nodes()[m_node as int] is Some,
            model_of(machine) == commands_at(m0, swarm, keep@, role@, m_node as int, all.take(j as int)),
        decreases out@.len() - j,
    {
        let edge = out[j];
        let label = swarm.edge_weight(edge);
        proof {
            assert(all.take(j + 1).drop_last() =~= all.take(j as int));
            assert(all.take(j + 1).last() == edge);
        }
        if keep[edge] && label.role.name().same(role.name()) {
            if machine.edge_count() >= MAX_ITEMS {
                proof {
                    lemma_commands_grow(m0, swarm, keep@, role@, m_node as int, all, j + 1);
                    let next = commands_at(m0, swarm, keep@, role@, m_node as int, all.take(j + 1));
                    assert(role_of(swarm, edge as int) == role@);
                    assert(next.edges.len() == model_of(machine).edges.len() + 1);
                    let last = commands_at(m0, swarm, keep@, role@, m_node as int, all);
                    assert(size_le(next, last));
                    assert(last.edges.len() > MAX_ITEMS);
                    assert(!fits(last));
                    assert(m0 == model_of(old(machine)));
                    assert(all == swarm.shape().outgoing(s_node as int));
                }
                return false;
            }
            let ghost g1 = *machine;
            let ghost before = model_of(machine);
            machine.add_edge(
                m_node,
                m_node,
                MachineLabel::Execute { cmd: label.cmd.clone(), log_type: dup_all(&label.log_type) },
            );
            proof {
                lemma_anchored_edge(&g1, machine, m_node as int, m_node as int);
                let item = MachineLabelView::Execute {
                    cmd: cmd_of(swarm, edge as int),
                    log: log_of(swarm, edge as int),
                };
                assert(machine_names(machine) =~= before.names);
                assert(label_views(machine.labels()) =~= before.labels.push(item));
                assert(model_of(machine) == add_edge(before, m_node as int, m_node as int, item));
            }
        }
        j += 1;
    }
    proof {
        assert(all.take(all.len() as int) =~= all);
    }
    true
}


/// Adds a chain of inputs from machine node `start` to machine node
/// `m_node`, one for each event of `evs`, over new nodes without names.
/// Returns whether the graph could hold the chain.
#[verifier::spinoff_prover]
fn add_inputs(machine: &mut MachineGraph, start: NodeId, m_node: NodeId, evs: &Vec<EventType>) -> (ok:
    bool)
    requires
        old(machine).wf(),
        anchored(old(machine)),
        start < old(machine).shape().nodes,
        m_node < old(machine).shape().nodes,
        old(machine).nodes()[m_node as int] is Some,
    ensures
        ok ==> final(machine).wf() && anchored(final(machine)) && model_of(final(machine))
            == add_chain(model_of(old(machine)), start as int, m_node as int, texts(evs@)),
        ok ==> final(machine).shape().nodes >= old(machine).shape().nodes && forall|i: int|
            0 <= i < old(machine).shape().nodes ==> #[trigger] final(machine).nodes()[i] == old(
                machine,
            ).nodes()[i],
        !ok ==> !fits(add_chain(model_of(old(machine)), start as int, m_node as int, texts(evs@))),
{
    let n = evs.len();
    let ghost m0 = model_of(machine);
    let ghost g0 = *machine;
    let ghost names = texts(evs@);
    let ghost want = add_chain(m0, start as int, m_node as int, names);
    if n == 0 {
        return true;
    }
    let base = machine.node_count();
    proof {
        assert(m0.names.len() == base);
        assert(want.names.len() == base + n - 1);
        assert(want.edges.len() == m0.edges.len() + n);
    }
    if n - 1 > MAX_ITEMS - base || n > MAX_ITEMS - machine.edge_count() {
        return false;
    }
    let mut states: Vec<usize> = Vec::new();
    states.push(start);
    let mut q: usize = 1;
    while q < n
        invariant
            1 <= q <= n,
            n == evs@.len(),
            machine.wf(),
            base + n - 1 <= MAX_ITEMS,
            machine.shape().nodes == base + q - 1,
            machine.shape().edges == g0.shape().edges,
            machine.labels() == g0.labels(),
            machine.nodes() == g0.nodes() + Seq::new((q - 1) as nat, |k: int| None::<State>),
            states@.len() == q,
            states@[0] == start,
            forall|k: int| 1 <= k < q ==> #[trigger] states@[k] == base + k - 1,
        decreases n - q,
    {
        let ghost before = machine.nodes();
        let fresh = machine.add_node(None);
        states.push(fresh);
        proof {
            assert(machine.nodes() =~= g0.nodes() + Seq::new(q as nat, |k: int| None::<State>));
        }
        q += 1;
    }
    states.push(m_node);
    let windows = pair_windows(&states);
    let ghost g1 = *machine;
    proof {
        assert(windows@.len() == n);
        assert(machine_names(machine) =~= want.names);
    }
    let mut k: usize = 0;
    while k < n
        invariant
            k <= n,
            n == evs@.len(),
            n > 0,
            names == texts(evs@),
            machine.wf(),
            g0.wf(),
            anchored(&g0),
            base == g0.shape().nodes,
            start < base,
            m_node < base,
            g0.nodes()[m_node as int] is Some,
            machine.shape().nodes == base + n - 1,
            machine.nodes() == g1.nodes(),
            g1.nodes() == g0.nodes() + Seq::new((n - 1) as nat, |i: int| None::<State>),
            machine.shape().edges.len() == g0.shape().edges.len() + k,
            g0.shape().edges.len() + n <= MAX_ITEMS,
            windows@.len() == n,
            states@.len() == n + 1,
            states@[0] == start,
            states@[n as int] == m_node,
            forall|i: int| 1 <= i < n ==> #[trigger] states@[i] == base + i - 1,
            forall|i: int| 0 <= i < n ==> #[trigger] windows@[i] == (states@[i], states@[i + 1]),
            machine.shape().edges == g0.shape().edges + want.edges.subrange(
                m0.edges.len() as int,
                m0.edges.len() + k,
            ),
            label_views(machine.labels()) == m0.labels + want.labels.subrange(
                m0.labels.len() as int,
                m0.labels.len() + k,
            ),
            m0 == model_of(&g0),
            want == add_chain(m0, start as int, m_node as int, names),
            forall|i: int|
                0 <= i < base && (#[trigger] machine.nodes()[i]) is None ==> way_back(machine, i),
            forall|i: int| 0 <= i < k && i < n - 1 ==> #[trigger] way_back(machine, base + i),
        decreases n - k,
    {
        let from = windows[k].0;
        let to = windows[k].1;
        let ghost old_edges = machine.shape().edges;
        let ghost old_labels = label_views(machine.labels());
        let ghost g2 = *machine;
        proof {
            assert(windows@[k as int] == (states@[k as int], states@[k + 1]));
            if k > 0 {
                assert(states@[k as int] == base + k - 1);
            }
            if k + 1 < n {
                assert(states@[k + 1] == base + k);
            }
        }
        machine.add_edge(from, to, MachineLabel::Input { event_type: evs[k].clone() });
        proof {
            let at = m0.edges.len() + k;
            assert(want.edges[at] == (from as int, to as int));
            assert(want.labels[at] == MachineLabelView::Input { event: names[k as int] });
            assert(names[k as int] == evs@[k as int]@);
            assert(m0.labels.len() == m0.edges.len());
            assert(label_views(machine.labels()) =~= old_labels.push(
                MachineLabelView::Input { event: names[k as int] },
            ));
            assert(machine.shape().edges =~= g0.shape().edges + want.edges.subrange(
                m0.edges.len() as int,
                m0.edges.len() + k + 1,
            ));
            assert(label_views(machine.labels()) =~= m0.labels + want.labels.subrange(
                m0.labels.len() as int,
                m0.labels.len() + k + 1,
            ));
            assert forall|i: int|
                0 <= i < base && (#[trigger] machine.nodes()[i]) is None implies way_back(machine, i) by {
                assert(g2.nodes()[i] is None);
                assert(g0.nodes()[i] == g1.nodes()[i]);
                lemma_way_back_kept(&g2, machine, from as int, to as int, i);
            }
            assert forall|i: int| 0 <= i < k + 1 && i < n - 1 implies #[trigger] way_back(
                machine,
                base + i,
            ) by {
                if i < k {
                    lemma_way_back_kept(&g2, machine, from as int, to as int, base + i);
                } else {
                    lemma_way_back_new(&g2, machine, from as int, to as int);
                }
            }
        }
        k += 1;
    }
    proof {
        assert(machine.shape().edges =~= want.edges);
        assert(label_views(machine.labels()) =~= want.labels);
        assert(machine_names(machine) =~= want.names);
        assert forall|i: int| 0 <= i < machine.shape().nodes && (#[trigger] machine.nodes()[i]) is None implies way_back(
            machine,
            i,
        ) by {
            if i >= base {
                assert(way_back(machine, base + (i - base)));
            }
        }
    }
    true
}


/// Whether the named nodes of the machine are the swarm nodes of `order`,
/// in their order and under their names, and stand before the nodes
/// without a name.
pub open spec fn named_after(machine: &MachineGraph, swarm: &SwarmGraph, order: Seq<int>) -> bool {
    &&& order.len() <= machine.shape().nodes
    &&& forall|n: int|
        0 <= n < machine.shape().nodes ==> ((#[trigger] machine.nodes()[n]) is Some <==> n
            < order.len())
    &&& forall|n: int|
        0 <= n < order.len() ==> #[trigger] machine_names(machine)[n] == Some(
            names_of(swarm)[order[n]],
        )
}

/// Whether `order` holds exactly the nodes that `initial` reaches over the
/// edges marked in `keep`, each once.
pub open spec fn exact_search(order: Seq<int>, swarm: &SwarmGraph, keep: Seq<bool>, initial: int) -> bool {
    &&& order.no_duplicates()
    &&& forall|n: int| order.contains(n) <==> swarm.shape().reaches(keep, initial, n)
}

/// A list of `n` marks of nodes that are not visited.
fn no_places(n: usize) -> (marks: Vec<usize>)
    ensures
        marks@ == places(n as nat, Seq::empty()),
{
    let mut marks: Vec<usize> = Vec::new();
    while marks.len() < n
        invariant
            marks@.len() <= n,
            forall|i: int| 0 <= i < marks@.len() ==> #[trigger] marks@[i] == NO_NODE,
        decreases n - marks@.len(),
    {
        marks.push(NO_NODE);
    }
    assert(marks@ =~= places(n as nat, Seq::empty()));
    marks
}

/// The place of the node visited next.
proof fn lemma_places_step(nodes: nat, order: Seq<int>, i: int)
    requires
        0 <= i < order.len(),
        order.no_duplicates(),
        0 <= order[i] < nodes,
        i < NO_NODE,
    ensures
        places(nodes, order.take(i + 1)) == places(nodes, order.take(i)).update(order[i], i as usize),
{
    let a = places(nodes, order.take(i + 1));
    let b = places(nodes, order.take(i)).update(order[i], i as usize);
    assert forall|n: int| 0 <= n < nodes implies a[n] == b[n] by {
        let longer = order.take(i + 1);
        let shorter = order.take(i);
        if n == order[i] {
            assert(longer[i] == n);
            assert(longer.contains(n));
            let at = longer.index_of(n);
            assert(longer[at] == n);
            if at != i {
                assert(order[at] == order[i]);
            }
        } else {
            if shorter.contains(n) {
                let at = shorter.index_of(n);
                assert(shorter[at] == n);
                assert(longer[at] == n);
                assert(longer.contains(n));
                let at2 = longer.index_of(n);
                assert(longer[at2] == n);
                if at2 != at {
                    assert(order[at2] == order[at]);
                }
            }
            if longer.contains(n) {
                let at = longer.index_of(n);
                assert(longer[at] == n);
                assert(at < i);
                assert(shorter[at] == n);
            }
        }
    }
    assert(a =~= b);
}

/// The place of a visited node is where it stands in the order, and no
/// other node has a place.
proof fn lemma_places(nodes: nat, order: Seq<int>, n: int)
    requires
        0 <= n < nodes,
        order.no_duplicates(),
        order.len() < NO_NODE,
    ensures
        order.contains(n) ==> 0 <= places(nodes, order)[n] < order.len() && order[places(
            nodes,
            order,
        )[n] as int] == n,
        !order.contains(n) ==> places(nodes, order)[n] == NO_NODE,
        forall|i: int| 0 <= i < order.len() && order[i] == n ==> places(nodes, order)[n] == i,
{
    if order.contains(n) {
        let at = order.index_of(n);
        assert(order[at] == n);
    }
}

/// Projects the swarm protocol to the machine of `role`: the machine has
/// one named node for each state that the initial state reaches over
/// transitions of which the role observes an event, a self-loop for each
/// command of the role there, and for each such transition a chain of
/// inputs, one for each event that the role observes of it.
///
/// Returns the machine and the node of the initial state. There is no
/// machine where a transition of which the role observes an event leads
/// from a state that is not reached to one that is, or where the machine
/// is larger than a graph can be.
#[verifier::spinoff_prover]
pub fn project(swarm: &SwarmGraph, initial: NodeId, subs: &Subscriptions, role: Role) -> (r: Option<
    (MachineGraph, NodeId),
>)
    requires
        swarm.wf(),
        subs.wf(),
        initial < swarm.shape().nodes,
    ensures
        match r {
            Some(p) => {
                &&& p.0.wf()
                &&& anchored(&p.0)
                &&& model_of(&p.0) == projection(swarm, subs.of(role@), role@, initial as int)
                &&& p.1 < p.0.shape().nodes
                &&& p.1 == places(
                    swarm.shape().nodes,
                    visited(swarm, subs.of(role@), initial as int),
                )[initial as int]
                &&& sources_visited(swarm, subs.of(role@), initial as int)
                &&& fits(projection(swarm, subs.of(role@), role@, initial as int))
                &&& named_after(&p.0, swarm, visited(swarm, subs.of(role@), initial as int))
            },
            None => !(sources_visited(swarm, subs.of(role@), initial as int) && fits(
                projection(swarm, subs.of(role@), role@, initial as int),
            )),
        },
        exact_search(
            visited(swarm, subs.of(role@), initial as int),
            swarm,
            interest(swarm, subs.of(role@)),
            initial as int,
        ),
{
    let nothing: NameSet<EventType> = NameSet::new();
    let sub = match subs.get(&role) {
        Some(set) => set,
        None => &nothing,
    };
    assert(sub@ == subs.of(role@));
    let keep = interest_mask(swarm, sub);
    let order = swarm.dfs(&keep, initial);
    let ghost ord = ids(order@);
    let ghost nodes = swarm.shape().nodes;
    let ghost last = projection(swarm, sub@, role@, initial as int);
    let ghost positions = places(nodes, ord);
    let ghost first = first_pass(swarm, keep@, role@, ord);
    proof {
        assert(ord == visited(swarm, sub@, initial as int));
        assert(ord.no_duplicates()) by {
            assert forall|a: int, b: int| 0 <= a < ord.len() && 0 <= b < ord.len() && a != b implies ord[a]
                != ord[b] by {
                assert(order@[a] != order@[b]);
            }
        }
        lemma_first_pass_grow(swarm, keep@, role@, ord, 0);
        lemma_second_pass_grow(first, swarm, keep@, sub@, positions, ord, 0);
        assert forall|n: int| ord.contains(n) <==> swarm.shape().reaches(
            keep@,
            initial as int,
            n,
        ) by {
            if ord.contains(n) {
                let k = choose|k: int| 0 <= k < ord.len() && ord[k] == n;
                assert(order@[k] as int == n);
            }
            if swarm.shape().reaches(keep@, initial as int, n) {
                assert(order@.contains(n as usize));
                let k = choose|k: int| 0 <= k < order@.len() && order@[k] == n as usize;
                assert(ord[k] == n);
            }
        }
        assert(exact_search(ord, swarm, keep@, initial as int));
    }
    let mut m_nodes = no_places(swarm.node_count());
    let mut machine: MachineGraph = Multigraph::new();
    let mut i: usize = 0;
    proof {
        assert(ord.take(0) =~= Seq::<int>::empty());
        assert(machine_names(&machine) =~= Seq::<Option<Text>>::empty());
        assert(label_views(machine.labels()) =~= Seq::<MachineLabelView>::empty());
    }
    while i < order.len()
        invariant
            i <= order@.len(),
            swarm.wf(),
            machine.wf(),
            anchored(&machine),
            ord == ids(order@),
            ord.no_duplicates(),
            nodes == swarm.shape().nodes,
            keep@.len() == swarm.shape().edges.len(),
            forall|k: int| 0 <= k < order@.len() ==> (#[trigger] order@[k]) < nodes,
            machine.shape().nodes == i,
            forall|n: int| 0 <= n < i ==> (#[trigger] machine.nodes()[n]) is Some,
            forall|n: int|
                0 <= n < i ==> #[trigger] machine_names(&machine)[n] == Some(
                    names_of(swarm)[ord[n]],
                ),
            model_of(&machine) == first_pass(swarm, keep@, role@, ord.take(i as int)),
            m_nodes@ == places(nodes, ord.take(i as int)),
            first == first_pass(swarm, keep@, role@, ord),
            size_le(first, last),
            first.names.len() == ord.len(),
            sub@ == subs.of(role@),
            last == projection(swarm, sub@, role@, initial as int),
            keep@ == interest(swarm, sub@),
            ord == visited(swarm, sub@, initial as int),
            exact_search(ord, swarm, keep@, initial as int),
        decreases order@.len() - i,
    {
        let s_node = order[i];
        proof {
            assert(ord[i as int] == s_node);
            assert(ord.take(i + 1).drop_last() =~= ord.take(i as int));
            assert(ord.take(i + 1).last() == s_node);
        }
        if machine.node_count() >= MAX_ITEMS {
            proof {
                assert(last.names.len() > MAX_ITEMS);
            }
            return None;
        }
        let ghost before = model_of(&machine);
        let ghost g1 = machine;
        let m_node = machine.add_node(Some(swarm.node_weight(s_node).clone()));
        proof {
            assert(machine_names(&machine) =~= before.names.push(Some(names_of(swarm)[s_node as int])));
            assert(model_of(&machine) == add_named(before, names_of(swarm)[s_node as int]));
            assert forall|n: int| 0 <= n < machine.shape().nodes && (#[trigger] machine.nodes()[n]) is None implies way_back(
                &machine,
                n,
            ) by {
                assert(g1.nodes()[n] is None);
            }
            lemma_places_step(nodes, ord, i as int);
        }
        m_nodes.set(s_node, m_node);
        let ghost g2 = machine;
        let ok = add_commands(&mut machine, swarm, &keep, &role, s_node, m_node);
        if !ok {
            proof {
                lemma_first_pass_grow(swarm, keep@, role@, ord, i + 1);
                let partial = first_pass(swarm, keep@, role@, ord.take(i + 1));
                assert(!fits(partial));
                assert(size_le(partial, first));
                assert(!fits(last));
            }
            return None;
        }
        proof {
            assert forall|n: int| 0 <= n < i + 1 implies (#[trigger] machine.nodes()[n]) is Some by {
                if n < i {
                    assert(g2.nodes()[n] == g1.nodes()[n]);
                }
            }
            assert forall|n: int| 0 <= n < i + 1 implies #[trigger] machine_names(&machine)[n]
                == Some(names_of(swarm)[ord[n]]) by {
                assert(machine.nodes()[n] == g2.nodes()[n]);
                if n < i {
                    assert(g2.nodes()[n] == g1.nodes()[n]);
                    assert(machine_names(&g1)[n] == Some(names_of(swarm)[ord[n]]));
                }
            }
        }
        i += 1;
    }
    proof {
        assert(ord.take(ord.len() as int) =~= ord);
        assert(ord.take(0) =~= Seq::<int>::empty());
    }
    let count = order.len();
    let mut i: usize = 0;
    while i < order.len()
        invariant
            i <= order@.len(),
            count == order@.len(),
            swarm.wf(),
            machine.wf(),
            anchored(&machine),
            ord == ids(order@),
            ord.no_duplicates(),
            nodes == swarm.shape().nodes,
            keep@ == interest(swarm, sub@),
            forall|k: int| 0 <= k < order@.len() ==> (#[trigger] order@[k]) < nodes,
            machine.shape().nodes >= count,
            count <= MAX_ITEMS,
            forall|n: int| 0 <= n < count ==> (#[trigger] machine.nodes()[n]) is Some,
            forall|n: int|
                count <= n < machine.shape().nodes ==> (#[trigger] machine.nodes()[n]) is None,
            forall|n: int|
                0 <= n < count ==> #[trigger] machine_names(&machine)[n] == Some(
                    names_of(swarm)[ord[n]],
                ),
            exact_search(ord, swarm, keep@, initial as int),
            positions == places(nodes, ord),
            m_nodes@ == positions,
            first == first_pass(swarm, keep@, role@, ord),
            last == second_pass(first, swarm, keep@, sub@, positions, ord),
            ord == visited(swarm, sub@, initial as int),
            sub@ == subs.of(role@),
            last == projection(swarm, sub@, role@, initial as int),
            exact_search(ord, swarm, keep@, initial as int),
            model_of(&machine) == second_pass(first, swarm, keep@, sub@, positions, ord.take(i as int)),
            forall|e: int|
                swarm.shape().has_edge(e) && #[trigger] keep@[e] && ord.take(i as int).contains(
                    swarm.target(e),
                ) ==> ord.contains(swarm.source(e)),
        decreases order@.len() - i,
    {
        let s_node = order[i];
        let m_node = m_nodes[s_node];
        let inc = swarm.incoming(s_node);
        let ghost edges = ids(inc@);
        let ghost start_model = model_of(&machine);
        proof {
            assert(ord[i as int] == s_node);
            assert(ord.take(i + 1).drop_last() =~= ord.take(i as int));
            assert(ord.take(i + 1).last() == s_node);
            lemma_places(nodes, ord, s_node as int);
            assert(m_node == i);
            assert(edges.take(0) =~= Seq::<int>::empty());
            lemma_second_pass_grow(first, swarm, keep@, sub@, positions, ord, i + 1);
        }
        let mut j: usize = 0;
        while j < inc.len()
            invariant
                j <= inc@.len(),
                i < order@.len(),
                count == order@.len(),
                swarm.wf(),
                machine.wf(),
                anchored(&machine),
                nodes == swarm.shape().nodes,
                keep@ == interest(swarm, sub@),
                ord == ids(order@),
                ord.no_duplicates(),
                ord.len() <= MAX_ITEMS,
                s_node == ord[i as int],
                s_node < nodes,
                edges == ids(inc@),
                edges == swarm.shape().incoming(s_node as int),
                forall|k: int|
                    0 <= k < inc@.len() ==> swarm.shape().has_edge(#[trigger] inc@[k] as int)
                        && swarm.target(inc@[k] as int) == s_node,
                machine.shape().nodes >= count,
                m_node == i,
                forall|n: int| 0 <= n < count ==> (#[trigger] machine.nodes()[n]) is Some,
                forall|n: int|
                    count <= n < machine.shape().nodes ==> (#[trigger] machine.nodes()[n]) is None,
                forall|n: int|
                    0 <= n < count ==> #[trigger] machine_names(&machine)[n] == Some(
                        names_of(swarm)[ord[n]],
                    ),
                positions == places(nodes, ord),
                m_nodes@ == positions,
                ord == visited(swarm, sub@, initial as int),
                last == second_pass(first, swarm, keep@, sub@, positions, ord),
                sub@ == subs.of(role@),
                last == projection(swarm, sub@, role@, initial as int),
                exact_search(ord, swarm, keep@, initial as int),
                forall|k: int|
                    0 <= k < j && keep@[#[trigger] inc@[k] as int] ==> ord.contains(
                        swarm.source(inc@[k] as int),
                    ),
                size_le(
                    inputs_at(start_model, swarm, keep@, sub@, positions, m_node as int, edges),
                    last,
                ),
                model_of(&machine) == inputs_at(
                    start_model,
                    swarm,
                    keep@,
                    sub@,
                    positions,
                    m_node as int,
                    edges.take(j as int),
                ),
            decreases inc@.len() - j,
        {
            let edge = inc[j];
            proof {
                assert(edges.take(j + 1).drop_last() =~= edges.take(j as int));
                assert(edges.take(j + 1).last() == edge);
                lemma_inputs_grow(
                    start_model,
                    swarm,
                    keep@,
                    sub@,
                    positions,
                    m_node as int,
                    edges,
                    j + 1,
                );
            }
            if keep[edge] {
                let ends = swarm.edge_endpoints(edge).unwrap();
                let start = m_nodes[ends.0];
                proof {
                    lemma_places(nodes, ord, ends.0 as int);
                }
                if start == NO_NODE {
                    proof {
                        assert(!ord.contains(swarm.source(edge as int)));
                        assert(ord.contains(swarm.target(edge as int))) by {
                            assert(ord[i as int] == s_node);
                        }
                        assert(interest(swarm, sub@)[edge as int]);
                    }
                    return None;
                }
                let label = swarm.edge_weight(edge);
                let evs = observed_events(&label.log_type, sub);
                let ghost g1 = machine;
                let ok = add_inputs(&mut machine, start, m_node, &evs);
                proof {
                    assert(texts(evs@) == observed(sub@, log_of(swarm, edge as int)));
                    assert(positions[swarm.source(edge as int)] == start);
                    assert(ord.contains(swarm.source(edge as int)));
                }
                if !ok {
                    proof {
                        let partial = inputs_at(
                            start_model,
                            swarm,
                            keep@,
                            sub@,
                            positions,
                            m_node as int,
                            edges.take(j + 1),
                        );
                        assert(!fits(partial));
                        assert(!fits(last));
                    }
                    return None;
                }
                proof {
                    assert forall|n: int| 0 <= n < count implies (#[trigger] machine.nodes()[n]) is Some by {
                        assert(machine.nodes()[n] == g1.nodes()[n]);
                    }
                    assert forall|n: int| 0 <= n < count implies #[trigger] machine_names(&machine)[n]
                        == Some(names_of(swarm)[ord[n]]) by {
                        assert(machine.nodes()[n] == g1.nodes()[n]);
                        assert(machine_names(&g1)[n] == Some(names_of(swarm)[ord[n]]));
                    }
                    assert forall|n: int| count <= n < machine.shape().nodes implies (
                    #[trigger] machine.nodes()[n]) is None by {
                        let added = add_chain(
                            model_of(&g1),
                            start as int,
                            m_node as int,
                            texts(evs@),
                        );
                        assert(machine_names(&machine)[n] == added.names[n]);
                        if n < g1.shape().nodes {
                            assert(machine.nodes()[n] == g1.nodes()[n]);
                        }
                    }
                }
            }
            j += 1;
        }
        proof {
            assert(edges.take(edges.len() as int) =~= edges);
            assert forall|e: int|
                swarm.shape().has_edge(e) && #[trigger] keep@[e] && ord.take(i + 1).contains(
                    swarm.target(e),
                ) implies ord.contains(swarm.source(e)) by {
                let t = swarm.target(e);
                let longer = ord.take(i + 1);
                let k = choose|k: int| 0 <= k < longer.len() && longer[k] == t;
                if k < i {
                    assert(ord.take(i as int)[k] == t);
                    assert(ord.take(i as int).contains(t));
                } else {
                    assert(t == s_node);
                    assert(inc@.contains(e as usize));
                    let q = choose|q: int| 0 <= q < inc@.len() && inc@[q] == e as usize;
                    assert(inc@[q] as int == e);
                }
            }
        }
        i += 1;
    }
    proof {
        assert(ord.take(ord.len() as int) =~= ord);
        lemma_places(nodes, ord, initial as int);
        assert(ord.contains(initial as int)) by {
            crate::graph::lemma_reaches_self(swarm.shape(), keep@, initial as int);
            assert(order@.contains(initial));
            let k = choose|k: int| 0 <= k < order@.len() && order@[k] == initial;
            assert(ord[k] == initial);
        }
        assert forall|e: int|
            swarm.shape().has_edge(e) && #[trigger] interest(swarm, sub@)[e] && ord.contains(
                swarm.target(e),
            ) implies ord.contains(swarm.source(e)) by {
            assert(keep@[e]);
        }
    }
    Some((machine, m_nodes[initial]))
}

} // verus!
