//! The messages of the findings on a swarm protocol.

use crate::graph::{EdgeId, Multigraph};
use crate::sets::NameSet;
use crate::swarm::{cmd_of, log_of, names_of, role_of, views, Error, ErrorView};
use crate::text::Text;
use crate::types::{join_texts, swarm_label_text, texts, EventType, StateName, SwarmLabel};
use vstd::prelude::*;

verus! {

/// The texts of a list of strings.
pub open spec fn str_texts(items: Seq<&str>) -> Seq<Text> {
    items.map_values(|s: &str| s@)
}

/// `Itertools::join`: the strings of `items` in one string, with `sep`
/// between each two neighbours.
#[verifier::external_body]
fn join_strs(items: &Vec<&str>, sep: &str) -> (out: String)
    ensures
        out@ == join_texts(str_texts(items@), sep@),
{
    itertools::Itertools::join(&mut items.iter(), sep)
}

/// The names of a set, separated by a comma and a blank.
pub fn list_names(set: &NameSet<EventType>) -> (out: String)
    ensures
        out@ == join_texts(set@, ", "@),
{
    let mut items: Vec<&str> = Vec::new();
    let mut i: usize = 0;
    while i < set.len()
        invariant
            i <= set@.len(),
            items@.len() == i,
            forall|k: int| 0 <= k < i ==> (#[trigger] items@[k])@ == set@[k],
        decreases set@.len() - i,
    {
        items.push(set.get(i).as_str());
        i += 1;
    }
    assert(str_texts(items@) =~= set@);
    join_strs(&items, ", ")
}

/// The display form of edge `e`: `(source)--[label]-->(target)`.
pub open spec fn edge_text<N: StateName>(g: &Multigraph<N, SwarmLabel>, e: int) -> Text {
    if g.shape().has_edge(e) {
        "("@ + names_of(g)[g.source(e)] + ")--["@ + swarm_label_text(g.labels()[e]@) + "]-->("@
            + names_of(g)[g.target(e)] + ")"@
    } else {
        "[invalid EdgeId]"@
    }
}

/// The message of a finding.
pub open spec fn error_text<N: StateName>(g: &Multigraph<N, SwarmLabel>, m: ErrorView) -> Text {
    match m {
        ErrorView::InitialStateDisconnected => "initial swarm protocol state has no transitions"@,
        ErrorView::LogTypeEmpty(e) => "log type must not be empty "@ + edge_text(g, e),
        ErrorView::ActiveRoleNotSubscribed(e) => "active role does not subscribe to any of its emitted event types in transition "@
            + edge_text(g, e),
        ErrorView::LaterActiveRoleNotSubscribed(e, r) => "subsequently active role "@ + r
            + " does not subscribe to events in transition "@ + edge_text(g, e),
        ErrorView::LaterInvolvedRoleMoreSubscribed { edge, later, active, events } => "subsequently involved role "@
            + later + " subscribes to more events than active role "@ + active + " in transition "@
            + edge_text(g, edge) + ", namely ("@ + join_texts(events, ", "@) + ")"@,
        ErrorView::LaterInvolvedNotGuarded(e, r) => "subsequently involved role "@ + r
            + " does not subscribe to guard in transition "@ + edge_text(g, e),
        ErrorView::NonDeterministicGuard(e) => if g.shape().has_edge(e) {
            "non-deterministic event guard type "@ + log_of(g, e)[0] + " in state "@ + names_of(
                g,
            )[g.source(e)]
        } else {
            "non-deterministic event guard [invalid EdgeId]"@
        },
        ErrorView::NonDeterministicCommand(e) => if g.shape().has_edge(e) {
            "non-deterministic command "@ + cmd_of(g, e) + " for role "@ + role_of(g, e)
                + " in state "@ + names_of(g)[g.source(e)]
        } else {
            "non-deterministic command [invalid EdgeId]"@
        },
        ErrorView::GuardNotInvariant(ev) => "guard event type "@ + ev
            + " appears in transitions from multiple states"@,
    }
}

/// Whether the finding can be put into words: a finding on the guard of an
/// edge of the graph needs an edge that has a guard.
pub open spec fn renderable<N>(g: &Multigraph<N, SwarmLabel>, m: ErrorView) -> bool {
    m matches ErrorView::NonDeterministicGuard(e) ==> (g.shape().has_edge(e) ==> log_of(g, e).len() > 0)
}

/// The display form of edge `e`.
pub fn print_edge<N: StateName>(g: &Multigraph<N, SwarmLabel>, e: EdgeId) -> (out: String)
    requires
        g.wf(),
    ensures
        out@ == edge_text(g, e as int),
{
    match g.edge_endpoints(e) {
        None => String::from_str("[invalid EdgeId]"),
        Some(ends) => {
            let source = g.node_weight(ends.0).state_name();
            let target = g.node_weight(ends.1).state_name();
            let label = g.edge_weight(e).to_string();
            let mut out = String::from_str("(");
            out.append(source.as_str());
            out.append(")--[");
            out.append(label.as_str());
            out.append("]-->(");
            out.append(target.as_str());
            out.append(")");
            out
        },
    }
}

impl Error {
    /// The message of the finding, with the transitions of `graph` spelled
    /// out.
    pub fn to_string<N: StateName>(&self, graph: &Multigraph<N, SwarmLabel>) -> (out: String)
        requires
            graph.wf(),
            renderable(graph, self@),
        ensures
            out@ == error_text(graph, self@),
    {
        match self {
            Error::InitialStateDisconnected => String::from_str(
                "initial swarm protocol state has no transitions",
            ),
            Error::LogTypeEmpty(edge) => {
                let mut out = String::from_str("log type must not be empty ");
                out.append(print_edge(graph, *edge).as_str());
                out
            },
            Error::ActiveRoleNotSubscribed(edge) => {
                let mut out = String::from_str(
                    "active role does not subscribe to any of its emitted event types in transition ",
                );
                out.append(print_edge(graph, *edge).as_str());
                out
            },
            Error::LaterActiveRoleNotSubscribed(edge, role) => {
                let mut out = String::from_str("subsequently active role ");
                out.append(role.as_str());
                out.append(" does not subscribe to events in transition ");
                out.append(print_edge(graph, *edge).as_str());
                out
            },
            Error::LaterInvolvedRoleMoreSubscribed { edge, later, active, events } => {
                let mut out = String::from_str("subsequently involved role ");
                out.append(later.as_str());
                out.append(" subscribes to more events than active role ");
                out.append(active.as_str());
                out.append(" in transition ");
                out.append(print_edge(graph, *edge).as_str());
                out.append(", namely (");
                out.append(list_names(events).as_str());
                out.append(")");
                out
            },
            Error::LaterInvolvedNotGuarded(edge, role) => {
                let mut out = String::from_str("subsequently involved role ");
                out.append(role.as_str());
                out.append(" does not subscribe to guard in transition ");
                out.append(print_edge(graph, *edge).as_str());
                out
            },
            Error::NonDeterministicGuard(edge) => {
                match graph.edge_endpoints(*edge) {
                    None => String::from_str("non-deterministic event guard [invalid EdgeId]"),
                    Some(ends) => {
                        let state = graph.node_weight(ends.0).state_name();
                        let label = graph.edge_weight(*edge);
                        assert(texts(label.log_type@) == log_of(graph, *edge as int));
                        let guard = &label.log_type[0];
                        let mut out = String::from_str("non-deterministic event guard type ");
                        out.append(guard.as_str());
                        out.append(" in state ");
                        out.append(state.as_str());
                        out
                    },
                }
            },
            Error::NonDeterministicCommand(edge) => {
                match graph.edge_endpoints(*edge) {
                    None => String::from_str("non-deterministic command [invalid EdgeId]"),
                    Some(ends) => {
                        let state = graph.node_weight(ends.0).state_name();
                        let label = graph.edge_weight(*edge);
                        let mut out = String::from_str("non-deterministic command ");
                        out.append(label.cmd.as_str());
                        out.append(" for role ");
                        out.append(label.role.as_str());
                        out.append(" in state ");
                        out.append(state.as_str());
                        out
                    },
                }
            },
            Error::GuardNotInvariant(ev) => {
                let mut out = String::from_str("guard event type ");
                out.append(ev.as_str());
                out.append(" appears in transitions from multiple states");
                out
            },
        }
    }

    /// The messages of a list of findings, in their order.
    pub fn convert<N: StateName>(errors: Vec<Error>, graph: &Multigraph<N, SwarmLabel>) -> (out: Vec<
        String,
    >)
        requires
            graph.wf(),
            forall|i: int| 0 <= i < errors@.len() ==> renderable(graph, #[trigger] views(errors@)[i]),
        ensures
            out@.len() == errors@.len(),
            forall|i: int|
                0 <= i < errors@.len() ==> (#[trigger] out@[i])@ == error_text(
                    graph,
                    views(errors@)[i],
                ),
    {
        let mut out: Vec<String> = Vec::new();
        let mut i: usize = 0;
        while i < errors.len()
            invariant
                i <= errors@.len(),
                graph.wf(),
                out@.len() == i,
                forall|k: int|
                    0 <= k < errors@.len() ==> renderable(graph, #[trigger] views(errors@)[k]),
                forall|k: int|
                    0 <= k < i ==> (#[trigger] out@[k])@ == error_text(graph, views(errors@)[k]),
            decreases errors@.len() - i,
        {
            assert(views(errors@)[i as int] == errors@[i as int]@);
            out.push(errors[i].to_string(graph));
            i += 1;
        }
        out
    }
}

} // verus!
