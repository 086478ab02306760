//! The machines of single roles: loading a machine, projecting a swarm
//! protocol to the machine of one role, and comparing two machines.

pub use crate::compare::equivalent;
use crate::graph::{EdgeId, Multigraph, NodeId, MAX_ITEMS};
pub use crate::project::project;
use crate::sets::NameMap;
use crate::swarm::{
    endpoints, first_seen, indexes, lemma_endpoints_step, lemma_endpoints_take,
    lemma_first_seen_grows, lemma_first_seen_step, loadable,
};
use crate::text::{decimal, decimal_text, string_texts, Text};
use crate::types::{
    machine_label_text, MachineLabel, MachineLabelView, Protocol, State, Transition,
};
use vstd::prelude::*;

verus! {

/// A machine as a graph. A node that stands between the events of one log
/// has no name.
pub type MachineGraph = Multigraph<Option<State>, MachineLabel>;

/// The name of a node, where it has one.
pub open spec fn name_of(node: Option<State>) -> Option<Text> {
    match node {
        Some(s) => Some(s@),
        None => None,
    }
}

/// The names of the nodes of a machine, by node.
pub open spec fn machine_names(g: &MachineGraph) -> Seq<Option<Text>> {
    g.nodes().map_values(|n: Option<State>| name_of(n))
}

/// The names of a machine all of whose nodes are named.
pub open spec fn named(names: Seq<Text>) -> Seq<Option<Text>> {
    names.map_values(|n: Text| Some(n))
}

/// Whether the newest edge that enters node `n` comes from a node with a
/// lower number.
pub open spec fn way_back(g: &MachineGraph, n: int) -> bool {
    g.shape().incoming(n).len() > 0 && 0 <= g.source(g.shape().incoming(n)[0]) < n
}

/// Whether every node without a name has a way back: walking back from it
/// leads to a node with a name.
pub open spec fn anchored(g: &MachineGraph) -> bool {
    forall|n: int| 0 <= n < g.shape().nodes && (#[trigger] g.nodes()[n]) is None ==> way_back(g, n)
}

/// Whether the graph is the machine with the given transitions: its nodes
/// are the states in the order in which the transitions first name them,
/// and its edges are the transitions in their order.
pub open spec fn loaded(g: &MachineGraph, ts: Seq<Transition<MachineLabel>>) -> bool {
    &&& g.wf()
    &&& machine_names(g) == named(first_seen(endpoints(ts)))
    &&& g.shape().edges.len() == ts.len()
    &&& forall|e: int|
        0 <= e < ts.len() ==> {
            &&& (#[trigger] g.labels()[e])@ == ts[e].label@
            &&& machine_names(g)[g.source(e)] == Some(ts[e].source@)
            &&& machine_names(g)[g.target(e)] == Some(ts[e].target@)
        }
}

/// The message on a command that does not lead back to its state.
pub open spec fn loop_text(cmd: Text, state: Text) -> Text {
    "command "@ + cmd + " is not a self-loop in state "@ + state
}

/// The messages on the commands among the transitions that do not lead
/// back to their state, in the order of the transitions.
pub open spec fn loop_findings(ts: Seq<Transition<MachineLabel>>) -> Seq<Text>
    decreases ts.len(),
{
    if ts.len() == 0 {
        Seq::empty()
    } else {
        let before = loop_findings(ts.drop_last());
        let t = ts.last();
        match t.label@ {
            MachineLabelView::Execute { cmd, .. } => if t.source@ != t.target@ {
                before.push(loop_text(cmd, t.source@))
            } else {
                before
            },
            MachineLabelView::Input { .. } => before,
        }
    }
}

/// The node that stands for state `name`, added to the graph if the state
/// is new.
#[verifier::spinoff_prover]
fn node_for(
    graph: &mut MachineGraph,
    index: &mut NameMap<State, NodeId>,
    name: &State,
    Ghost(names): Ghost<Seq<Text>>,
) -> (n: NodeId)
    requires
        old(graph).wf(),
        old(graph).shape().nodes < MAX_ITEMS || names.contains(name@),
        old(index).wf(),
        machine_names(old(graph)) == named(names),
        indexes(old(index), names),
    ensures
        final(graph).wf(),
        final(index).wf(),
        final(graph).shape().edges == old(graph).shape().edges,
        final(graph).labels() == old(graph).labels(),
        machine_names(final(graph)) == named(
            if names.contains(name@) {
                names
            } else {
                names.push(name@)
            },
        ),
        indexes(
            final(index),
            if names.contains(name@) {
                names
            } else {
                names.push(name@)
            },
        ),
        final(graph).shape().nodes <= old(graph).shape().nodes + 1,
        old(graph).shape().nodes <= final(graph).shape().nodes,
        n < final(graph).shape().nodes,
        machine_names(final(graph))[n as int] == Some(name@),
        forall|m: int|
            0 <= m < old(graph).shape().nodes ==> #[trigger] machine_names(final(graph))[m]
                == machine_names(old(graph))[m],
{
    assert(named(names).len() == names.len());
    match index.find(name) {
        Some(i) => {
            let n = *index.value(i);
            assert(names.contains(name@));
            assert(named(names)[n as int] == Some(names[n as int]));
            n
        },
        None => {
            assert(!names.contains(name@));
            let n = graph.add_node(Some(name.clone()));
            index.insert(name.clone(), n);
            proof {
                let after = names.push(name@);
                assert(named(after).len() == after.len());
                assert(machine_names(graph) =~= named(after)) by {
                    assert forall|j: int| 0 <= j < after.len() implies machine_names(graph)[j]
                        == named(after)[j] by {
                        if j < names.len() {
                            assert(graph.nodes()[j] == old(graph).nodes()[j]);
                            assert(machine_names(old(graph))[j] == named(names)[j]);
                        }
                    }
                }
                assert forall|x: Text| index.has(x) <==> after.contains(x) by {
                    if names.contains(x) {
                        let j = choose|j: int| 0 <= j < names.len() && names[j] == x;
                        assert(after[j] == x);
                    }
                    if x == name@ {
                        assert(after[n as int] == x);
                    }
                    if after.contains(x) {
                        let j = choose|j: int| 0 <= j < after.len() && after[j] == x;
                        if j < names.len() {
                            assert(names[j] == x);
                        }
                    }
                }
                assert forall|j: int| 0 <= j < after.len() implies index.at(#[trigger] after[j])
                    == j by {
                    if j < names.len() {
                        assert(after[j] == names[j]);
                        assert(names.contains(names[j]));
                    }
                }
                assert forall|m: int| 0 <= m < old(graph).shape().nodes implies #[trigger] machine_names(
                    graph,
                )[m] == machine_names(old(graph))[m] by {
                    assert(graph.nodes()[m] == old(graph).nodes()[m]);
                }
            }
            n
        },
    }
}

/// Loads the machine into a graph. Returns the graph, the node of the
/// initial state if a transition names that state, and a message for each
/// command that does not lead back to its state.
#[verifier::spinoff_prover]
pub fn from_json(proto: Protocol<MachineLabel>) -> (r: (MachineGraph, Option<NodeId>, Vec<String>))
    requires
        loadable(proto.transitions@),
    ensures
        loaded(&r.0, proto.transitions@),
        anchored(&r.0),
        match r.1 {
            Some(i) => i < r.0.shape().nodes && machine_names(&r.0)[i as int] == Some(
                proto.initial@,
            ) && first_seen(endpoints(proto.transitions@)).contains(proto.initial@),
            None => !first_seen(endpoints(proto.transitions@)).contains(proto.initial@),
        },
        string_texts(r.2@) == loop_findings(proto.transitions@),
{
    let mut errors: Vec<String> = Vec::new();
    let mut machine: MachineGraph = Multigraph::new();
    let mut index: NameMap<State, NodeId> = NameMap::new();
    let ghost ts = proto.transitions@;
    let ghost mut names = Seq::<Text>::empty();
    let mut i: usize = 0;
    proof {
        assert(ts.take(0) =~= Seq::<Transition<MachineLabel>>::empty());
        assert(machine_names(&machine) =~= named(names));
        assert(string_texts(errors@) =~= Seq::<Text>::empty());
    }
    while i < proto.transitions.len()
        invariant
            i <= ts.len(),
            ts == proto.transitions@,
            loadable(ts),
            machine.wf(),
            index.wf(),
            indexes(&index, names),
            machine_names(&machine) == named(names),
            names == first_seen(endpoints(ts.take(i as int))),
            machine.shape().edges.len() == i,
            forall|e: int|
                0 <= e < i ==> {
                    &&& (#[trigger] machine.labels()[e])@ == ts[e].label@
                    &&& machine_names(&machine)[machine.source(e)] == Some(ts[e].source@)
                    &&& machine_names(&machine)[machine.target(e)] == Some(ts[e].target@)
                },
            string_texts(errors@) == loop_findings(ts.take(i as int)),
        decreases ts.len() - i,
    {
        let t = &proto.transitions[i];
        let ghost g1 = machine;
        let ghost names1 = names;
        proof {
            let flat = endpoints(ts);
            lemma_endpoints_take(ts, i as int);
            lemma_endpoints_take(ts, i + 1);
            lemma_endpoints_step(ts, i as int);
            let flat1 = endpoints(ts.take(i as int));
            lemma_first_seen_step(flat1, ts[i as int].source@);
            lemma_first_seen_step(flat1.push(ts[i as int].source@), ts[i as int].target@);
            assert(flat.take(2 * i + 1) =~= flat1.push(ts[i as int].source@)) by {
                assert(flat.take(2 * i + 2) == flat1.push(ts[i as int].source@).push(
                    ts[i as int].target@,
                ));
                assert(flat.take(2 * i + 1) =~= flat.take(2 * i + 2).take(2 * i + 1));
            }
            lemma_first_seen_grows(flat, 2 * i + 1);
            lemma_first_seen_grows(flat, 2 * i + 2);
            assert(named(names).len() == names.len());
            assert(machine_names(&machine).len() == machine.shape().nodes);
        }
        let source = node_for(&mut machine, &mut index, &t.source, Ghost(names));
        proof {
            names = if names.contains(t.source@) {
                names
            } else {
                names.push(t.source@)
            };
        }
        let ghost g2 = machine;
        let ghost names2 = names;
        proof {
            assert(named(names).len() == names.len());
            assert(machine_names(&machine).len() == machine.shape().nodes);
        }
        let target = node_for(&mut machine, &mut index, &t.target, Ghost(names));
        proof {
            names = if names.contains(t.target@) {
                names
            } else {
                names.push(t.target@)
            };
        }
        let ghost g3 = machine;
        let ghost old_errors = string_texts(errors@);
        match &t.label {
            MachineLabel::Execute { cmd, .. } => {
                if source != target {
                    let mut message = String::from_str("command ");
                    message.append(cmd.as_str());
                    message.append(" is not a self-loop in state ");
                    message.append(t.source.as_str());
                    errors.push(message);
                }
            },
            MachineLabel::Input { .. } => {},
        }
        machine.add_edge(source, target, t.label.clone());
        proof {
            assert(machine_names(&machine) =~= machine_names(&g3));
            lemma_endpoints_step(ts, i as int);
            let flat1 = endpoints(ts.take(i as int));
            lemma_first_seen_step(flat1, ts[i as int].source@);
            lemma_first_seen_step(flat1.push(ts[i as int].source@), ts[i as int].target@);
            assert(machine_names(&g3)[source as int] == machine_names(&g2)[source as int]);
            assert forall|e: int| 0 <= e < i + 1 implies {
                &&& (#[trigger] machine.labels()[e])@ == ts[e].label@
                &&& machine_names(&machine)[machine.source(e)] == Some(ts[e].source@)
                &&& machine_names(&machine)[machine.target(e)] == Some(ts[e].target@)
            } by {
                if e < i {
                    assert(machine.labels()[e] == g1.labels()[e]);
                    assert(machine.source(e) == g1.source(e));
                    assert(machine.target(e) == g1.target(e));
                    assert(0 <= g1.source(e) < g1.shape().nodes);
                    assert(0 <= g1.target(e) < g1.shape().nodes);
                    assert(machine_names(&g2)[g1.source(e)] == machine_names(&g1)[g1.source(e)]);
                    assert(machine_names(&g3)[g1.source(e)] == machine_names(&g2)[g1.source(e)]);
                    assert(machine_names(&g2)[g1.target(e)] == machine_names(&g1)[g1.target(e)]);
                    assert(machine_names(&g3)[g1.target(e)] == machine_names(&g2)[g1.target(e)]);
                }
            }
            assert(ts.take(i + 1).drop_last() =~= ts.take(i as int));
            // the two nodes are the same exactly when the two names are
            assert((source == target) == (t.source@ == t.target@)) by {
                assert(named(names)[source as int] == Some(names[source as int]));
                assert(named(names)[target as int] == Some(names[target as int]));
                assert(index.at(names[source as int]) == source);
                assert(index.at(names[target as int]) == target);
            }
            match t.label@ {
                MachineLabelView::Execute { cmd, .. } => {
                    if t.source@ != t.target@ {
                        assert(string_texts(errors@) =~= old_errors.push(
                            loop_text(cmd, t.source@),
                        ));
                    }
                },
                MachineLabelView::Input { .. } => {},
            }
        }
        i += 1;
    }
    proof {
        assert(ts.take(ts.len() as int) =~= ts);
        assert(named(names).len() == names.len());
        assert forall|n: int|
            0 <= n < machine.shape().nodes && (#[trigger] machine.nodes()[n]) is None implies false by {
            assert(machine_names(&machine)[n] == named(names)[n]);
        }
    }
    let initial = match index.find(&proto.initial) {
        Some(k) => {
            let n = *index.value(k);
            assert(named(names)[n as int] == Some(names[n as int]));
            Some(n)
        },
        None => None,
    };
    (machine, initial, errors)
}


/// Where walking back from node `n` over the newest incoming edges first
/// meets a name, and after how many steps. There is no name where `n` is no
/// node of the graph.
pub open spec fn walk_back(g: &MachineGraph, n: int) -> (Option<Text>, nat)
    decreases n,
{
    if !(0 <= n < g.shape().nodes) {
        (None, 0)
    } else {
        match g.nodes()[n] {
            Some(s) => (Some(s@), 0),
            None => if g.shape().incoming(n).len() > 0 && 0 <= g.source(g.shape().incoming(n)[0]) < n {
                let back = walk_back(g, g.source(g.shape().incoming(n)[0]));
                (back.0, back.1 + 1)
            } else {
                (None, 0)
            },
        }
    }
}

/// The display form of a state: its name, or for a node without a name the
/// name found by walking back, with the number of steps walked.
pub open spec fn place_text(name: Option<Text>, steps: nat) -> Text {
    (match name {
        Some(t) => t,
        None => "[invalid]"@,
    }) + if steps > 0 {
        "(+"@ + decimal_text(steps) + ")"@
    } else {
        Seq::empty()
    }
}

/// The display form of node `n`.
pub open spec fn state_text(g: &MachineGraph, n: int) -> Text {
    place_text(walk_back(g, n).0, walk_back(g, n).1)
}

/// The display form of node `n`.
pub fn state_name(g: &MachineGraph, n: NodeId) -> (out: String)
    requires
        g.wf(),
        anchored(g),
    ensures
        out@ == state_text(g, n as int),
{
    let mut at = n;
    let mut offset: usize = 0;
    let mut found: Option<&State> = None;
    loop
        invariant_except_break
            offset + at <= n || at == n && offset == 0,
            walk_back(g, n as int).0 == walk_back(g, at as int).0,
            walk_back(g, n as int).1 == walk_back(g, at as int).1 + offset,
            found is None,
        invariant
            g.wf(),
            anchored(g),
        ensures
            match found {
                Some(s) => walk_back(g, n as int) == (Some(s@), offset as nat),
                None => walk_back(g, n as int) == (None::<Text>, offset as nat),
            },
        decreases at,
    {
        if at >= g.node_count() {
            break ;
        }
        match g.node_weight(at) {
            Some(state) => {
                found = Some(state);
                break ;
            },
            None => {},
        }
        let edge = g.first_incoming(at).unwrap();
        let ends = g.edge_endpoints(edge).unwrap();
        at = ends.0;
        offset += 1;
    }
    let mut out = match found {
        Some(state) => String::from_str(state.as_str()),
        None => String::from_str("[invalid]"),
    };
    if offset > 0 {
        out.append("(+");
        out.append(decimal(offset).as_str());
        out.append(")");
    }
    out
}


/// One of the two machines of a comparison: the reference on the left, the
/// specimen on the right.
#[derive(Clone, Copy, Debug, PartialEq, Eq, Structural)]
pub enum Side {
    Left,
    Right,
}

/// A difference between two machines.
#[derive(Clone, Copy, Debug, PartialEq, Eq, Structural)]
pub enum Error {
    /// The label of the edge is not the only one of its kind at its node
    /// on this side: a machine has one reaction to an event and one handler
    /// for a command.
    NonDeterministic(Side, EdgeId),
    /// This side lacks, at the node, the edge of the other side.
    MissingTransition(Side, NodeId, EdgeId),
}

/// The label of edge `e` in its display form.
pub open spec fn label_text(g: &MachineGraph, e: int) -> Text {
    machine_label_text(g.labels()[e]@)
}

/// The message of a difference between the machines `left` and `right`.
pub open spec fn error_text(error: Error, left: &MachineGraph, right: &MachineGraph) -> Text {
    match error {
        Error::NonDeterministic(Side::Left, edge) => if left.shape().has_edge(edge as int) {
            "non-deterministic transition "@ + label_text(left, edge as int) + " in state "@
                + state_text(left, left.source(edge as int)) + " of the reference"@
        } else {
            "non-deterministic transition in reference"@
        },
        Error::NonDeterministic(Side::Right, edge) => if right.shape().has_edge(edge as int) {
            "non-deterministic transition "@ + label_text(right, edge as int) + " in state "@
                + state_text(right, right.source(edge as int)) + " of the specimen"@
        } else {
            "non-deterministic transition in specimen"@
        },
        Error::MissingTransition(Side::Left, node, edge) => "extraneous transition "@ + (if right.shape().has_edge(
            edge as int,
        ) {
            label_text(right, edge as int)
        } else {
            "[invalid]"@
        }) + " in state "@ + state_text(left, node as int),
        Error::MissingTransition(Side::Right, node, edge) => if left.shape().has_edge(edge as int) {
            "missing transition "@ + label_text(left, edge as int) + " in state "@ + state_text(
                right,
                node as int,
            ) + " (from reference state "@ + state_text(left, left.source(edge as int)) + ")"@
        } else {
            "missing transition in "@ + state_text(right, node as int)
        },
    }
}

impl Error {
    /// The message of the difference.
    pub fn to_string(&self, left: &MachineGraph, right: &MachineGraph) -> (out: String)
        requires
            left.wf(),
            right.wf(),
            anchored(left),
            anchored(right),
        ensures
            out@ == error_text(*self, left, right),
    {
        match self {
            Error::NonDeterministic(Side::Left, edge) => {
                match left.edge_endpoints(*edge) {
                    None => String::from_str("non-deterministic transition in reference"),
                    Some(ends) => {
                        let state = state_name(left, ends.0);
                        let label = left.edge_weight(*edge).to_string();
                        let mut out = String::from_str("non-deterministic transition ");
                        out.append(label.as_str());
                        out.append(" in state ");
                        out.append(state.as_str());
                        out.append(" of the reference");
                        out
                    },
                }
            },
            Error::NonDeterministic(Side::Right, edge) => {
                match right.edge_endpoints(*edge) {
                    None => String::from_str("non-deterministic transition in specimen"),
                    Some(ends) => {
                        let state = state_name(right, ends.0);
                        let label = right.edge_weight(*edge).to_string();
                        let mut out = String::from_str("non-deterministic transition ");
                        out.append(label.as_str());
                        out.append(" in state ");
                        out.append(state.as_str());
                        out.append(" of the specimen");
                        out
                    },
                }
            },
            Error::MissingTransition(Side::Left, l_node, r_edge) => {
                let state = state_name(left, *l_node);
                let label = match right.edge_endpoints(*r_edge) {
                    Some(_) => right.edge_weight(*r_edge).to_string(),
                    None => String::from_str("[invalid]"),
                };
                let mut out = String::from_str("extraneous transition ");
                out.append(label.as_str());
                out.append(" in state ");
                out.append(state.as_str());
                out
            },
            Error::MissingTransition(Side::Right, r_node, l_edge) => {
                let state = state_name(right, *r_node);
                match left.edge_endpoints(*l_edge) {
                    None => {
                        let mut out = String::from_str("missing transition in ");
                        out.append(state.as_str());
                        out
                    },
                    Some(ends) => {
                        let from = state_name(left, ends.0);
                        let label = left.edge_weight(*l_edge).to_string();
                        let mut out = String::from_str("missing transition ");
                        out.append(label.as_str());
                        out.append(" in state ");
                        out.append(state.as_str());
                        out.append(" (from reference state ");
                        out.append(from.as_str());
                        out.append(")");
                        out
                    },
                }
            },
        }
    }

    /// The messages of a list of differences, in their order.
    pub fn convert(errors: Vec<Error>, left: &MachineGraph, right: &MachineGraph) -> (out: Vec<String>)
        requires
            left.wf(),
            right.wf(),
            anchored(left),
            anchored(right),
        ensures
            out@.len() == errors@.len(),
            forall|i: int|
                0 <= i < errors@.len() ==> (#[trigger] out@[i])@ == error_text(errors@[i], left, right),
    {
        let mut out: Vec<String> = Vec::new();
        let mut i: usize = 0;
        while i < errors.len()
            invariant
                i <= errors@.len(),
                left.wf(),
                right.wf(),
                anchored(left),
                anchored(right),
                out@.len() == i,
                forall|k: int|
                    0 <= k < i ==> (#[trigger] out@[k])@ == error_text(errors@[k], left, right),
            decreases errors@.len() - i,
        {
            out.push(errors[i].to_string(left, right));
            i += 1;
        }
        out
    }
}

} // verus!
