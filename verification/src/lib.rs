//! Static analysis of swarm protocols: well-formedness of a protocol under a
//! subscription map, projection to the local machine of one role, and
//! comparison of two machines.

pub mod compare;
pub mod graph;
pub mod laws;
pub mod machine;
pub mod mask;
pub mod project;
pub mod report;
pub mod sets;
pub mod swarm;
pub mod text;
pub mod transfer;
pub mod types;
pub mod wellformed;

use crate::compare::{run, start};
use crate::machine::{anchored, loop_findings, machine_names, MachineGraph};
use crate::project::{fits, model_of, places, projection, sources_visited, visited};
pub use crate::sets::Subscriptions;
use crate::swarm::{
    check_findings, check_result, empty_logs, endpoints, first_seen, lemma_empty_logs_kind,
    loaded, names_of, views, ErrorView, SwarmGraph,
};
use crate::text::{sort_strings, sorted, string_texts, Text};
use crate::types::{CheckResult, MachineLabel, Protocol, Role, SwarmLabel, Transition};
use vstd::prelude::*;

verus! {

/// A swarm protocol.
pub type SwarmProtocol = Protocol<SwarmLabel>;

/// The machine of one role.
pub type Machine = Protocol<MachineLabel>;

/// The messages of the findings `all` on the protocol of graph `g`.
pub open spec fn messages_of(all: Seq<ErrorView>, g: &SwarmGraph) -> Seq<Text> {
    all.map_values(|m: ErrorView| crate::report::error_text(g, m))
}

/// Whether `r` reports the messages `messages`: success where there is
/// none, and else the messages in lexicographic order, each as often as it
/// occurs.
pub open spec fn reports(r: CheckResult, messages: Seq<Text>) -> bool {
    match r {
        CheckResult::OK => messages.len() == 0,
        CheckResult::ERROR { errors } => messages.len() > 0 && sorted(string_texts(errors@))
            && string_texts(errors@).to_multiset() == messages.to_multiset(),
    }
}

/// Every finding of a check can be put into words.
pub proof fn lemma_check_renderable(
    all: Seq<ErrorView>,
    g: &SwarmGraph,
    subs: &Subscriptions,
    ts: Seq<Transition<SwarmLabel>>,
    start: Text,
)
    requires
        loaded(g, ts),
        check_result(all, g, subs, ts, start),
    ensures
        forall|k: int| 0 <= k < all.len() ==> crate::report::renderable(g, #[trigger] all[k]),
{
    let head = empty_logs(ts);
    lemma_empty_logs_kind(ts);
    assert forall|k: int| 0 <= k < all.len() implies crate::report::renderable(
        g,
        #[trigger] all[k],
    ) by {
        if !names_of(g).contains(start) {
            if k < head.len() {
                assert(all[k] == head[k]);
            }
        } else {
            let i = choose|i: int| 0 <= i < names_of(g).len() && names_of(g)[i] == start;
            assert(names_of(g)[i] == start);
            let cut = choose|cut: int| check_findings(all, g, subs, i, head, cut);
            if k < head.len() {
                assert(all.take(head.len() as int)[k] == all[k]);
            } else if k < cut {
                let tail = all.subrange(head.len() as int, cut);
                assert(tail[k - head.len()] == all[k]);
            } else {
                let rest = all.skip(cut);
                assert(rest[k - cut] == all[k]);
                assert(rest.contains(all[k]));
                assert(crate::wellformed::violation(g, subs, i, all[k]));
                if let ErrorView::NonDeterministicGuard(e) = all[k] {
                    assert(crate::wellformed::checked(g, i, e));
                }
            }
        }
    }
}

/// The messages of the findings in lexicographic order.
fn render_sorted(errors: Vec<crate::swarm::Error>, graph: &SwarmGraph) -> (out: Vec<String>)
    requires
        graph.wf(),
        forall|i: int|
            0 <= i < errors@.len() ==> crate::report::renderable(graph, #[trigger] views(errors@)[i]),
    ensures
        sorted(string_texts(out@)),
        string_texts(out@).to_multiset() == messages_of(views(errors@), graph).to_multiset(),
        out@.len() == errors@.len(),
{
    let ghost all = views(errors@);
    let mut out = crate::swarm::Error::convert(errors, graph);
    proof {
        assert(string_texts(out@) =~= messages_of(all, graph));
    }
    sort_strings(&mut out);
    out
}

/// Checks the swarm protocol for well-formedness under the subscriptions.
///
/// The result is success where the check finds nothing, and else the
/// messages of its findings in lexicographic order.
pub fn check_swarm(proto: SwarmProtocol, subs: &Subscriptions) -> (r: CheckResult)
    requires
        subs.wf(),
        crate::swarm::loadable(proto.transitions@),
    ensures
        exists|g: SwarmGraph, all: Seq<ErrorView>|
            #![trigger check_result(all, &g, subs, proto.transitions@, proto.initial@)]
            loaded(&g, proto.transitions@) && check_result(
                all,
                &g,
                subs,
                proto.transitions@,
                proto.initial@,
            ) && reports(r, messages_of(all, &g)),
{
    let ghost ts = proto.transitions@;
    let ghost start = proto.initial@;
    let (graph, _, errors) = crate::swarm::check(proto, subs);
    let ghost all = views(errors@);
    proof {
        lemma_check_renderable(all, &graph, subs, ts, start);
    }
    let r = if errors.len() == 0 {
        CheckResult::OK
    } else {
        CheckResult::ERROR { errors: render_sorted(errors, &graph) }
    };
    proof {
        assert(messages_of(all, &graph).len() == all.len());
        assert(reports(r, messages_of(all, &graph)));
        assert(check_result(all, &graph, subs, proto.transitions@, proto.initial@));
    }
    r
}

/// The messages of the differences `found` between the machines `left`
/// and `right`.
pub open spec fn differences_of(
    found: Seq<crate::machine::Error>,
    left: &MachineGraph,
    right: &MachineGraph,
) -> Seq<Text> {
    found.map_values(|e: crate::machine::Error| crate::machine::error_text(e, left, right))
}

/// Whether `r` is what holding the machine with transitions `ts` and
/// initial state `initial` against the reference `proj` from node `at`
/// yields: the messages on the commands of the machine that are no
/// self-loops, with a message on the initial state if no transition names
/// it, or else the differences that the comparison finds.
pub open spec fn compared(
    r: CheckResult,
    proj: &MachineGraph,
    at: usize,
    ts: Seq<Transition<MachineLabel>>,
    initial: Text,
) -> bool {
    exists|m: MachineGraph|
        #![trigger crate::machine::loaded(&m, ts)]
        crate::machine::loaded(&m, ts) && anchored(&m) && if !first_seen(endpoints(ts)).contains(
            initial,
        ) {
            reports(r, loop_findings(ts).push("initial machine state has no transitions"@))
        } else if loop_findings(ts).len() > 0 {
            reports(r, loop_findings(ts))
        } else {
            exists|n: nat, i: usize|
                #![trigger run(proj, &m, start(proj, &m, at, i), n)]
                i < m.shape().nodes && machine_names(&m)[i as int] == Some(initial) && run(
                    proj,
                    &m,
                    start(proj, &m, at, i),
                    n,
                ).stack.len() == 0 && reports(
                    r,
                    differences_of(run(proj, &m, start(proj, &m, at, i), n).errors, proj, &m),
                )
        }
}

/// Whether `r` is the outcome of checking that a machine implements the
/// role `role` of a swarm protocol with graph `g` and findings `all`.
///
/// Findings on the swarm protocol are reported. Without findings, the
/// protocol is projected to the machine of the role, from the node `i` of
/// the initial state, and the machine is held against the projection. There
/// is no outcome where the projection does not exist.
pub open spec fn projection_outcome(
    r: Option<CheckResult>,
    g: &SwarmGraph,
    all: Seq<ErrorView>,
    sub: Seq<Text>,
    role: Text,
    i: int,
    ts: Seq<Transition<MachineLabel>>,
    initial: Text,
) -> bool {
    if all.len() > 0 {
        r matches Some(res) && reports(res, messages_of(all, g))
    } else if !(sources_visited(g, sub, i) && fits(projection(g, sub, role, i))) {
        r is None
    } else {
        r matches Some(res) && exists|proj: MachineGraph|
            #![trigger model_of(&proj)]
            proj.wf() && anchored(&proj) && model_of(&proj) == projection(g, sub, role, i) && compared(
                res,
                &proj,
                places(g.shape().nodes, visited(g, sub, i))[i],
                ts,
                initial,
            )
    }
}

/// The strings in lexicographic order.
fn sorted_report(mut messages: Vec<String>) -> (r: CheckResult)
    ensures
        reports(r, string_texts(messages@)),
{
    if messages.len() == 0 {
        CheckResult::OK
    } else {
        sort_strings(&mut messages);
        CheckResult::ERROR { errors: messages }
    }
}

/// Checks that the machine `machine` implements the role `role` of the
/// swarm protocol `proto` under the subscriptions `subs`.
///
/// The swarm protocol is checked first, and its findings are the result
/// where it has any. Else the protocol is projected to the machine of the
/// role and `machine` is compared with the projection. There is no result
/// where the projection does not exist.
#[verifier::spinoff_prover]
pub fn check_projection(proto: SwarmProtocol, subs: &Subscriptions, role: Role, machine: Machine) -> (r:
    Option<CheckResult>)
    requires
        subs.wf(),
        crate::swarm::loadable(proto.transitions@),
        crate::swarm::loadable(machine.transitions@),
    ensures
        exists|g: SwarmGraph, all: Seq<ErrorView>|
            #![trigger check_result(all, &g, subs, proto.transitions@, proto.initial@)]
            loaded(&g, proto.transitions@) && check_result(
                all,
                &g,
                subs,
                proto.transitions@,
                proto.initial@,
            ) && (all.len() > 0 ==> projection_outcome(
                r,
                &g,
                all,
                subs.of(role@),
                role@,
                0,
                machine.transitions@,
                machine.initial@,
            )) && (all.len() == 0 ==> exists|i: int|
                #![trigger names_of(&g)[i]]
                0 <= i < g.shape().nodes && names_of(&g)[i] == proto.initial@ && projection_outcome(
                    r,
                    &g,
                    all,
                    subs.of(role@),
                    role@,
                    i,
                    machine.transitions@,
                    machine.initial@,
                )),
{
    let ghost ts = proto.transitions@;
    let ghost initial_name = proto.initial@;
    let ghost m_ts = machine.transitions@;
    let ghost m_initial = machine.initial@;
    let ghost sub = subs.of(role@);
    let ghost role_text = role@;
    let (graph, initial, errors) = crate::swarm::check(proto, subs);
    let ghost all = views(errors@);
    proof {
        lemma_check_renderable(all, &graph, subs, ts, initial_name);
        lemma_empty_logs_kind(ts);
    }
    if errors.len() > 0 {
        let res = CheckResult::ERROR { errors: render_sorted(errors, &graph) };
        proof {
            assert(messages_of(all, &graph).len() == all.len());
            assert(reports(res, messages_of(all, &graph)));
            assert(projection_outcome(Some(res), &graph, all, sub, role_text, 0, m_ts, m_initial));
        }
        return Some(res);
    }
    let at = match initial {
        Some(at) => at,
        None => {
            proof {
                if !names_of(&graph).contains(initial_name) {
                    assert(all.len() > 0);
                } else {
                    let i = choose|i: int|
                        0 <= i < names_of(&graph).len() && names_of(&graph)[i] == initial_name;
                    assert(names_of(&graph)[i] == initial_name);
                    let cut = choose|cut: int|
                        check_findings(all, &graph, subs, i, empty_logs(ts), cut);
                    assert(all.len() >= empty_logs(ts).len());
                }
            }
            return None;
        },
    };
    let ghost i = at as int;
    let projected = crate::project::project(&graph, at, subs, role);
    let (proj, proj_initial) = match projected {
        Some(p) => p,
        None => {
            proof {
                assert(projection_outcome(None, &graph, all, sub, role_text, i, m_ts, m_initial));
            }
            return None;
        },
    };
    let (specimen, json_initial, mut messages) = crate::machine::from_json(machine);
    let res = match json_initial {
        None => {
            let ghost before = string_texts(messages@);
            messages.push(String::from_str("initial machine state has no transitions"));
            proof {
                assert(string_texts(messages@) =~= before.push(
                    "initial machine state has no transitions"@,
                ));
            }
            let res = sorted_report(messages);
            proof {
                assert(compared(res, &proj, proj_initial, m_ts, m_initial));
            }
            res
        },
        Some(other) => {
            if messages.len() > 0 {
                let res = sorted_report(messages);
                proof {
                    assert(first_seen(endpoints(m_ts)).contains(m_initial));
                    assert(compared(res, &proj, proj_initial, m_ts, m_initial));
                }
                res
            } else {
                let found = crate::compare::equivalent(&proj, proj_initial, &specimen, other);
                let ghost differences = found@;
                let texts = crate::machine::Error::convert(found, &proj, &specimen);
                proof {
                    assert(string_texts(texts@) =~= differences_of(differences, &proj, &specimen));
                }
                let res = sorted_report(texts);
                proof {
                    assert(first_seen(endpoints(m_ts)).contains(m_initial));
                    let n = choose|n: nat|
                        (#[trigger] run(&proj, &specimen, start(&proj, &specimen, proj_initial, other), n)).stack.len()
                            == 0 && differences == run(
                            &proj,
                            &specimen,
                            start(&proj, &specimen, proj_initial, other),
                            n,
                        ).errors;
                    assert(run(
                        &proj,
                        &specimen,
                        start(&proj, &specimen, proj_initial, other),
                        n,
                    ).stack.len() == 0);
                    assert(string_texts(messages@).len() == 0);
                    assert(compared(res, &proj, proj_initial, m_ts, m_initial));
                }
                res
            }
        },
    };
    proof {
        assert(projection_outcome(Some(res), &graph, all, sub, role_text, i, m_ts, m_initial));
    }
    Some(res)
}

} // verus!
