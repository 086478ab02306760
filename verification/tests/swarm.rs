use machine_check::graph::{EdgeId, NodeId};
use machine_check::report::print_edge;
use machine_check::sets::{NameSet, Subscriptions};
use machine_check::swarm::{
    active, can_load, check, from_json, involved, prepare_graph, well_formed, Analysis, Error,
    Neighbors, Node, Variance,
};
use machine_check::types::{
    print_log, CheckResult, Command, EventType, Protocol, Role, State, SwarmLabel, Transition,
};
use machine_check::{check_swarm, SwarmProtocol};
use std::collections::BTreeMap;

fn transition(source: &str, target: &str, cmd: &str, log: &[&str], role: &str) -> Transition<SwarmLabel> {
    Transition {
        label: SwarmLabel {
            cmd: Command::new(cmd),
            log_type: log.iter().map(|e| EventType::new(e)).collect(),
            role: Role::new(role),
        },
        source: State::new(source),
        target: State::new(target),
    }
}

fn protocol(initial: &str, transitions: Vec<Transition<SwarmLabel>>) -> SwarmProtocol {
    Protocol { initial: State::new(initial), transitions }
}

fn subscriptions(entries: &[(&str, &[&str])]) -> Subscriptions {
    let mut subs = Subscriptions::new();
    for (role, events) in entries {
        subs.add_role(Role::new(role));
        for event in events.iter() {
            subs.subscribe(Role::new(role), EventType::new(event));
        }
    }
    subs
}

fn roles(names: &[&str]) -> NameSet<Role> {
    let mut set = NameSet::new();
    for name in names {
        set.insert(Role::new(name));
    }
    set
}

fn events(names: &[&str]) -> NameSet<EventType> {
    let mut set = NameSet::new();
    for name in names {
        set.insert(EventType::new(name));
    }
    set
}

fn r(s: &str) -> Role {
    Role::new(s)
}

fn e(g: &Analysis, s: &str) -> EdgeId {
    (0..g.edge_count()).find(|id| print_edge(g, *id) == s).unwrap()
}

fn prep_graph(proto: SwarmProtocol, subs: &Subscriptions) -> (Analysis, NodeId) {
    let (graph, initial, e) = prepare_graph(proto, subs);
    assert_eq!(e.len(), 0);
    (graph, initial.unwrap())
}

fn messages(proto: SwarmProtocol, subs: &Subscriptions) -> Vec<String> {
    let (g, _, errors) = check(proto, subs);
    let mut errors = Error::convert(errors, &g);
    errors.sort();
    errors
}

fn two_loops() -> SwarmProtocol {
    // (S0) --(C0@R1<R1>)--> (S1) --(C5@R6<R6>)--> (S4)
    // (S1) --(C1@R2<R2>)--> (S2) --(C2@R3<R3>)--> (S1)  [the first loop above S1]
    // (S2) --(C3@R4<R4>)--> (S3) --(C4@R5<R5>)--> (S2)  [the second loop atop the first]
    protocol(
        "S0",
        vec![
            transition("S0", "S1", "C0", &["R1"], "R1"),
            transition("S1", "S2", "C1", &["R2"], "R2"),
            transition("S2", "S1", "C2", &["R3"], "R3"),
            transition("S2", "S3", "C3", &["R4"], "R4"),
            transition("S3", "S2", "C4", &["R5"], "R5"),
            transition("S1", "S4", "C5", &["R6"], "R6"),
        ],
    )
}

fn own_events() -> Subscriptions {
    subscriptions(&[
        ("R1", &["R1"]),
        ("R2", &["R2"]),
        ("R3", &["R3"]),
        ("R4", &["R4"]),
        ("R5", &["R5"]),
        ("R6", &["R6"]),
    ])
}

#[test]
fn prep_cycles() {
    let proto = two_loops();
    let subs = own_events();

    let (graph, initial) = prep_graph(proto, &subs);
    let mut nodes = BTreeMap::new();
    for node in 0..graph.node_count() {
        let node = graph.node_weight(node);
        nodes.insert(
            node.name.as_str().to_owned(),
            (node.active.duplicate(), node.roles.duplicate()),
        );
    }
    assert_eq!(nodes["S0"].0, roles(&["R1"]));
    assert_eq!(nodes["S1"].0, roles(&["R2", "R6"]));
    assert_eq!(nodes["S2"].0, roles(&["R3", "R4"]));
    assert_eq!(nodes["S3"].0, roles(&["R5"]));
    assert_eq!(nodes["S4"].0, roles(&[]));

    assert_eq!(nodes["S0"].1, roles(&["R1", "R2", "R3", "R4", "R5", "R6"]));
    assert_eq!(nodes["S1"].1, roles(&["R2", "R3", "R4", "R5", "R6"]));
    assert_eq!(nodes["S2"].1, roles(&["R2", "R3", "R4", "R5", "R6"]));
    assert_eq!(nodes["S3"].1, roles(&["R2", "R3", "R4", "R5", "R6"]));
    assert_eq!(nodes["S4"].1, roles(&[]));

    let mut errors = well_formed(&graph, initial, &subs);
    errors.sort();
    let g = &graph;
    let mut expected = vec![
        Error::LaterActiveRoleNotSubscribed(e(g, "(S0)--[C0@R1<R1>]-->(S1)"), r("R2")),
        Error::LaterActiveRoleNotSubscribed(e(g, "(S2)--[C2@R3<R3>]-->(S1)"), r("R2")),
        Error::LaterActiveRoleNotSubscribed(e(g, "(S1)--[C1@R2<R2>]-->(S2)"), r("R3")),
        Error::LaterActiveRoleNotSubscribed(e(g, "(S3)--[C4@R5<R5>]-->(S2)"), r("R3")),
        Error::LaterActiveRoleNotSubscribed(e(g, "(S1)--[C1@R2<R2>]-->(S2)"), r("R4")),
        Error::LaterActiveRoleNotSubscribed(e(g, "(S3)--[C4@R5<R5>]-->(S2)"), r("R4")),
        Error::LaterActiveRoleNotSubscribed(e(g, "(S2)--[C3@R4<R4>]-->(S3)"), r("R5")),
        Error::LaterActiveRoleNotSubscribed(e(g, "(S0)--[C0@R1<R1>]-->(S1)"), r("R6")),
        Error::LaterActiveRoleNotSubscribed(e(g, "(S2)--[C2@R3<R3>]-->(S1)"), r("R6")),
        Error::LaterInvolvedRoleMoreSubscribed {
            edge: e(g, "(S1)--[C1@R2<R2>]-->(S2)"),
            later: r("R2"),
            active: r("R3"),
            events: events(&["R2"]),
        },
        Error::LaterInvolvedRoleMoreSubscribed {
            edge: e(g, "(S1)--[C1@R2<R2>]-->(S2)"),
            later: r("R2"),
            active: r("R4"),
            events: events(&["R2"]),
        },
        Error::LaterInvolvedRoleMoreSubscribed {
            edge: e(g, "(S2)--[C2@R3<R3>]-->(S1)"),
            later: r("R3"),
            active: r("R2"),
            events: events(&["R3"]),
        },
        Error::LaterInvolvedRoleMoreSubscribed {
            edge: e(g, "(S2)--[C2@R3<R3>]-->(S1)"),
            later: r("R3"),
            active: r("R6"),
            events: events(&["R3"]),
        },
        Error::LaterInvolvedRoleMoreSubscribed {
            edge: e(g, "(S2)--[C3@R4<R4>]-->(S3)"),
            later: r("R4"),
            active: r("R5"),
            events: events(&["R4"]),
        },
        Error::LaterInvolvedRoleMoreSubscribed {
            edge: e(g, "(S3)--[C4@R5<R5>]-->(S2)"),
            later: r("R5"),
            active: r("R3"),
            events: events(&["R5"]),
        },
        Error::LaterInvolvedRoleMoreSubscribed {
            edge: e(g, "(S3)--[C4@R5<R5>]-->(S2)"),
            later: r("R5"),
            active: r("R4"),
            events: events(&["R5"]),
        },
        Error::LaterInvolvedNotGuarded(e(g, "(S0)--[C0@R1<R1>]-->(S1)"), r("R2")),
        Error::LaterInvolvedNotGuarded(e(g, "(S2)--[C2@R3<R3>]-->(S1)"), r("R2")),
        Error::LaterInvolvedNotGuarded(e(g, "(S2)--[C3@R4<R4>]-->(S3)"), r("R2")),
        Error::LaterInvolvedNotGuarded(e(g, "(S3)--[C4@R5<R5>]-->(S2)"), r("R2")),
        Error::LaterInvolvedNotGuarded(e(g, "(S0)--[C0@R1<R1>]-->(S1)"), r("R3")),
        Error::LaterInvolvedNotGuarded(e(g, "(S1)--[C1@R2<R2>]-->(S2)"), r("R3")),
        Error::LaterInvolvedNotGuarded(e(g, "(S2)--[C3@R4<R4>]-->(S3)"), r("R3")),
        Error::LaterInvolvedNotGuarded(e(g, "(S3)--[C4@R5<R5>]-->(S2)"), r("R3")),
        Error::LaterInvolvedNotGuarded(e(g, "(S0)--[C0@R1<R1>]-->(S1)"), r("R4")),
        Error::LaterInvolvedNotGuarded(e(g, "(S1)--[C1@R2<R2>]-->(S2)"), r("R4")),
        Error::LaterInvolvedNotGuarded(e(g, "(S2)--[C2@R3<R3>]-->(S1)"), r("R4")),
        Error::LaterInvolvedNotGuarded(e(g, "(S3)--[C4@R5<R5>]-->(S2)"), r("R4")),
        Error::LaterInvolvedNotGuarded(e(g, "(S0)--[C0@R1<R1>]-->(S1)"), r("R5")),
        Error::LaterInvolvedNotGuarded(e(g, "(S1)--[C1@R2<R2>]-->(S2)"), r("R5")),
        Error::LaterInvolvedNotGuarded(e(g, "(S2)--[C2@R3<R3>]-->(S1)"), r("R5")),
        Error::LaterInvolvedNotGuarded(e(g, "(S2)--[C3@R4<R4>]-->(S3)"), r("R5")),
        Error::LaterInvolvedNotGuarded(e(g, "(S0)--[C0@R1<R1>]-->(S1)"), r("R6")),
        Error::LaterInvolvedNotGuarded(e(g, "(S1)--[C1@R2<R2>]-->(S2)"), r("R6")),
        Error::LaterInvolvedNotGuarded(e(g, "(S2)--[C2@R3<R3>]-->(S1)"), r("R6")),
        Error::LaterInvolvedNotGuarded(e(g, "(S2)--[C3@R4<R4>]-->(S3)"), r("R6")),
        Error::LaterInvolvedNotGuarded(e(g, "(S3)--[C4@R5<R5>]-->(S2)"), r("R6")),
    ];
    expected.sort();
    assert_eq!(errors, expected);
}

fn linear() -> SwarmProtocol {
    // (S0) --(a@R1<A,B,C>)--> (S1) --(b@R2<D,E>)--> (S2)
    protocol(
        "S0",
        vec![
            transition("S0", "S1", "a", &["A", "B", "C"], "R1"),
            transition("S1", "S2", "b", &["D", "E"], "R2"),
        ],
    )
}

#[test]
fn basics() {
    let proto = linear();
    let subs = subscriptions(&[("R1", &["E"]), ("R3", &["A", "B", "C", "D"])]);
    let errors = messages(proto, &subs);
    assert_eq!(errors, vec![
        "active role does not subscribe to any of its emitted event types in transition (S0)--[a@R1<A,B,C>]-->(S1)",
        "active role does not subscribe to any of its emitted event types in transition (S1)--[b@R2<D,E>]-->(S2)",
        "subsequently active role R2 does not subscribe to events in transition (S0)--[a@R1<A,B,C>]-->(S1)",
        "subsequently involved role R1 does not subscribe to guard in transition (S0)--[a@R1<A,B,C>]-->(S1)",
        "subsequently involved role R3 subscribes to more events than active role R2 in transition (S0)--[a@R1<A,B,C>]-->(S1), namely (A, B, C)"
    ]);
}

fn branching() -> SwarmProtocol {
    protocol(
        "S0",
        vec![
            transition("S0", "S1", "a", &["A"], "R"),
            transition("S1", "S2", "b", &["B", "A"], "R"),
            transition("S2", "S3", "c", &["A"], "R"),
            transition("S2", "S3", "c", &["C"], "R"),
            transition("S2", "S3", "d", &["A"], "R"),
            transition("S2", "S3", "c", &["A"], "S"),
            transition("S2", "S3", "d", &["A"], "S"),
        ],
    )
}

#[test]
fn deterministic() {
    let proto = branching();
    let errors = messages(proto, &Subscriptions::new());
    assert_eq!(errors, vec![
        "active role does not subscribe to any of its emitted event types in transition (S0)--[a@R<A>]-->(S1)",
        "active role does not subscribe to any of its emitted event types in transition (S1)--[b@R<B,A>]-->(S2)",
        "active role does not subscribe to any of its emitted event types in transition (S2)--[c@R<A>]-->(S3)",
        "active role does not subscribe to any of its emitted event types in transition (S2)--[c@R<C>]-->(S3)",
        "active role does not subscribe to any of its emitted event types in transition (S2)--[c@S<A>]-->(S3)",
        "active role does not subscribe to any of its emitted event types in transition (S2)--[d@R<A>]-->(S3)",
        "active role does not subscribe to any of its emitted event types in transition (S2)--[d@S<A>]-->(S3)",
        "guard event type A appears in transitions from multiple states",
        "non-deterministic command c for role R in state S2",
        "non-deterministic event guard type A in state S2",
        "subsequently active role R does not subscribe to events in transition (S0)--[a@R<A>]-->(S1)",
        "subsequently active role R does not subscribe to events in transition (S1)--[b@R<B,A>]-->(S2)",
        "subsequently active role S does not subscribe to events in transition (S1)--[b@R<B,A>]-->(S2)",
    ]);
}

#[test]
fn empty_log() {
    let proto = protocol(
        "S0",
        vec![
            transition("S0", "S1", "a", &["A", "B", "C"], "R1"),
            transition("S1", "S2", "b", &[], "R2"),
        ],
    );
    let errors = messages(proto, &Subscriptions::new());
    assert_eq!(
        errors,
        vec![
            "active role does not subscribe to any of its emitted event types in transition (S0)--[a@R1<A,B,C>]-->(S1)",
            "log type must not be empty (S1)--[b@R2<>]-->(S2)",
            "subsequently active role R2 does not subscribe to events in transition (S0)--[a@R1<A,B,C>]-->(S1)",
        ]
    );
}

#[test]
fn disconnected_initial() {
    let proto = protocol(
        "S5",
        vec![
            transition("S0", "S1", "a", &["A", "B", "C"], "R1"),
            transition("S1", "S2", "b", &[], "R2"),
        ],
    );
    let errors = messages(proto, &Subscriptions::new());
    assert_eq!(
        errors,
        vec![
            "initial swarm protocol state has no transitions",
            "log type must not be empty (S1)--[b@R2<>]-->(S2)",
        ]
    );
}

#[test]
fn check_swarm_sorts_the_messages() {
    let subs = subscriptions(&[("R1", &["E"]), ("R3", &["A", "B", "C", "D"])]);
    let result = check_swarm(linear(), &subs);
    let CheckResult::ERROR { errors } = result else {
        panic!("the protocol is not well-formed");
    };
    assert_eq!(errors.len(), 5);
    let mut sorted = errors.clone();
    sorted.sort();
    assert_eq!(errors, sorted);
    assert_eq!(
        errors[4],
        "subsequently involved role R3 subscribes to more events than active role R2 in transition (S0)--[a@R1<A,B,C>]-->(S1), namely (A, B, C)"
    );
    // the same input gives the same output
    assert_eq!(check_swarm(linear(), &subs), CheckResult::ERROR { errors });
}

#[test]
fn check_swarm_accepts_a_well_formed_protocol() {
    let subs = subscriptions(&[("R1", &["A", "B", "C", "D", "E"]), ("R2", &["A", "B", "C", "D", "E"])]);
    assert_eq!(check_swarm(linear(), &subs), CheckResult::OK);
}

#[test]
fn universal_subscription_leaves_determinism_only() {
    let all: &[&str] = &["A", "B", "C"];
    let subs = subscriptions(&[("R", all), ("S", all)]);
    let errors = messages(branching(), &subs);
    assert_eq!(
        errors,
        vec![
            "guard event type A appears in transitions from multiple states",
            "non-deterministic command c for role R in state S2",
            "non-deterministic event guard type A in state S2",
        ]
    );
}

#[test]
fn active_role_acts_on_every_edge_of_its_node() {
    let (graph, _) = prep_graph(two_loops(), &own_events());
    for edge in 0..graph.edge_count() {
        let (source, _) = graph.edge_endpoints(edge).unwrap();
        let role = &graph.edge_weight(edge).role;
        assert!(graph.node_weight(source).active.contains(role));
    }
}

#[test]
fn involved_holds_the_active_roles_of_successors() {
    // every active role observes its own event, so that it is involved
    let (graph, _) = prep_graph(two_loops(), &own_events());
    for edge in 0..graph.edge_count() {
        let (source, target) = graph.edge_endpoints(edge).unwrap();
        let involved = &graph.node_weight(source).roles;
        let active = &graph.node_weight(target).active;
        for i in 0..active.len() {
            assert!(involved.contains(active.get(i)));
        }
    }
}

#[test]
fn involved_need_not_hold_an_active_role_that_observes_nothing() {
    let (graph, initial) = prep_graph(linear(), &Subscriptions::new());
    assert!(graph.node_weight(initial).roles.is_empty());
    let (_, target) = graph.edge_endpoints(0).unwrap();
    assert_eq!(graph.node_weight(target).active, roles(&["R2"]));
}

#[test]
fn loader_numbers_states_and_transitions_in_order() {
    let (graph, initial, errors) = prepare_graph(two_loops(), &own_events());
    assert_eq!(errors, vec![]);
    assert_eq!(initial, Some(0));
    assert_eq!(graph.node_count(), 5);
    assert_eq!(graph.edge_count(), 6);
    let names: Vec<&str> = (0..5).map(|n| graph.node_weight(n).name.as_str()).collect();
    assert_eq!(names, vec!["S0", "S1", "S2", "S3", "S4"]);
    assert_eq!(graph.edge_endpoints(2), Some((2, 1)));
    assert_eq!(graph.edge_endpoints(5), Some((1, 4)));
    assert_eq!(graph.edge_endpoints(6), None);
    // the edges at a node are listed newest first
    assert_eq!(graph.outgoing(1), vec![5, 1]);
    assert_eq!(graph.incoming(2), vec![4, 1]);
    assert_eq!(graph.first_incoming(2), Some(4));
    assert_eq!(graph.next_incoming(4), Some(1));
    assert_eq!(graph.next_incoming(1), None);
    assert_eq!(graph.first_incoming(0), None);
}

#[test]
fn searches_visit_what_the_start_reaches() {
    let (graph, _, _) = prepare_graph(two_loops(), &own_events());
    let all = vec![true; graph.edge_count()];
    let mut order = graph.dfs(&all, 2);
    assert_eq!(order[0], 2);
    order.sort();
    assert_eq!(order, vec![1, 2, 3, 4]);
    let mut order = graph.dfs_post_order(&all, 0);
    order.sort();
    assert_eq!(order, vec![0, 1, 2, 3, 4]);
    // without the edge from S1 to S2 the loops are out of reach
    let mut keep = all.clone();
    keep[1] = false;
    let mut order = graph.dfs(&keep, 0);
    order.sort();
    assert_eq!(order, vec![0, 1, 4]);
    let mut order = graph.dfs_post_order(&keep, 0);
    assert_eq!(order.pop(), Some(0));
    order.sort();
    assert_eq!(order, vec![1, 4]);
    assert_eq!(graph.every_edge(), all);
}

#[test]
fn guard_in_one_state_is_invariant() {
    let proto = protocol(
        "S0",
        vec![
            transition("S0", "S1", "a", &["A"], "R"),
            transition("S0", "S2", "b", &["B", "A"], "R"),
        ],
    );
    let subs = subscriptions(&[("R", &["A", "B"])]);
    let (_, initial, errors) = prepare_graph(proto, &subs);
    assert_eq!(initial, Some(0));
    assert_eq!(errors, vec![]);
}

#[test]
fn variant_guards_are_reported_in_order() {
    let proto = protocol(
        "S0",
        vec![
            transition("S0", "S1", "a", &["Z"], "R"),
            transition("S1", "S0", "b", &["Z"], "R"),
            transition("S0", "S2", "c", &["B"], "R"),
            transition("S2", "S0", "d", &["B"], "R"),
        ],
    );
    let (_, _, errors) = prepare_graph(proto, &Subscriptions::new());
    assert_eq!(
        errors,
        vec![
            Error::GuardNotInvariant(EventType::new("B")),
            Error::GuardNotInvariant(EventType::new("Z")),
        ]
    );
}

#[test]
fn variance_knows_its_variant() {
    assert!(Variance::Variant.is_variant());
    assert!(!Variance::Absent.is_variant());
    assert!(!Variance::Invariant(3).is_variant());
}

#[test]
fn labels_print_their_parts() {
    let label = transition("S0", "S1", "cmd", &["x", "y"], "role").label;
    assert_eq!(label.to_string(), "cmd@role<x,y>");
    assert_eq!(print_log(&label.log_type), "x,y");
    assert_eq!(print_log(&vec![]), "");
    assert_eq!(print_log(&vec![EventType::new("only")]), "only");
}

#[test]
fn names_are_compared_by_their_text() {
    assert_eq!(Role::new("a"), Role::new("a"));
    assert_ne!(Role::new("a"), Role::new("b"));
    assert!(Role::new("a") < Role::new("b"));
    assert!(Role::new("B") < Role::new("a"));
    assert!(Role::new("a") < Role::new("aa"));
    assert_eq!(State::new("here").as_str(), "here");
    let mut set = NameSet::new();
    assert!(set.insert(Role::new("b")));
    assert!(set.insert(Role::new("a")));
    assert!(!set.insert(Role::new("b")));
    assert_eq!(set.len(), 2);
    assert_eq!(set.get(0).as_str(), "a");
    assert_eq!(set.get(1).as_str(), "b");
    assert!(set.contains(&Role::new("a")));
    assert!(!set.contains(&Role::new("c")));
}

#[test]
fn subscriptions_look_up_roles() {
    let subs = subscriptions(&[("R2", &["B", "A"]), ("R1", &[])]);
    assert_eq!(subs.len(), 2);
    assert_eq!(subs.role(0).as_str(), "R1");
    assert_eq!(subs.get(&Role::new("R2")), Some(&events(&["A", "B"])));
    assert_eq!(subs.get(&Role::new("R1")), Some(&events(&[])));
    assert_eq!(subs.get(&Role::new("R3")), None);
}

#[test]
fn small_protocols_can_be_loaded() {
    assert!(can_load(&two_loops()));
    assert!(can_load(&protocol("S0", vec![])));
}

#[test]
fn neighbors_walks_the_predecessors() {
    let (graph, _, _) = prepare_graph(two_loops(), &own_events());
    let mut cursor = Neighbors::new(2);
    assert_eq!(cursor.next(&graph), Some(3));
    assert_eq!(cursor.next(&graph), Some(1));
    assert_eq!(cursor.next(&graph), None);
    assert_eq!(cursor.next(&graph), None);
    let mut cursor = Neighbors::new(0);
    assert_eq!(cursor.next(&graph), None);
}

#[test]
fn neighbors_skips_loops() {
    let proto = protocol(
        "S0",
        vec![
            transition("S0", "S1", "a", &["A"], "R"),
            transition("S1", "S1", "b", &["B"], "R"),
            transition("S0", "S1", "c", &["C"], "R"),
        ],
    );
    let (graph, _, _) = prepare_graph(proto, &Subscriptions::new());
    let mut cursor = Neighbors::new(1);
    assert_eq!(cursor.next(&graph), Some(0));
    assert_eq!(cursor.next(&graph), Some(0));
    assert_eq!(cursor.next(&graph), None);
}

#[test]
fn from_json_reports_loading_and_guards() {
    let (graph, initial, errors) = from_json(branching(), &Subscriptions::new());
    assert_eq!(initial, Some(0));
    assert_eq!(graph.node_count(), 4);
    assert_eq!(graph.node_weight(3).as_str(), "S3");
    assert_eq!(errors, vec!["guard event type A appears in transitions from multiple states"]);
    let proto = protocol("S9", vec![transition("S0", "S1", "a", &[], "R")]);
    let (_, initial, errors) = from_json(proto, &Subscriptions::new());
    assert_eq!(initial, None);
    assert_eq!(
        errors,
        vec![
            "log type must not be empty (S0)--[a@R<>]-->(S1)",
            "initial swarm protocol state has no transitions",
        ]
    );
}

#[test]
fn new_node_knows_nothing() {
    let node = Node::new(State::new("S0"));
    assert_eq!(node.name.as_str(), "S0");
    assert!(node.active.is_empty());
    assert!(node.roles.is_empty());
}

fn with_empty_log() -> SwarmProtocol {
    protocol(
        "S0",
        vec![
            transition("S0", "S1", "a", &["A", "B", "C"], "R1"),
            transition("S1", "S2", "b", &[], "R2"),
        ],
    )
}

#[test]
fn an_empty_log_does_not_stop_the_analysis() {
    let subs = subscriptions(&[("R1", &["A"]), ("R2", &["A"])]);
    let (graph, initial, errors) = prepare_graph(with_empty_log(), &subs);
    assert_eq!(initial, Some(0));
    assert_eq!(errors, vec![Error::LogTypeEmpty(1)]);
    assert_eq!(graph.node_weight(0).active, roles(&["R1"]));
    assert_eq!(graph.node_weight(1).active, roles(&["R2"]));
    assert_eq!(graph.node_weight(0).roles, roles(&["R1", "R2"]));
    let (_, initial, errors) = check(with_empty_log(), &subs);
    assert_eq!(initial, Some(0));
    assert_eq!(errors, vec![Error::LogTypeEmpty(1)]);
    assert_eq!(
        check_swarm(with_empty_log(), &subs),
        CheckResult::ERROR { errors: vec!["log type must not be empty (S1)--[b@R2<>]-->(S2)".to_owned()] }
    );
}

#[test]
fn a_transition_without_events_is_no_twin() {
    // the newer transition has the command of the older one, but no events
    let proto = protocol(
        "S0",
        vec![
            transition("S0", "S1", "a", &["A"], "R"),
            transition("S0", "S1", "a", &[], "R"),
        ],
    );
    let subs = subscriptions(&[("R", &["A"])]);
    let errors = messages(proto, &subs);
    assert_eq!(errors, vec!["log type must not be empty (S0)--[a@R<>]-->(S1)"]);
}

#[test]
fn states_out_of_reach_are_left_alone() {
    let proto = protocol(
        "S0",
        vec![
            transition("S0", "S1", "a", &["A"], "R1"),
            transition("S8", "S9", "b", &["B"], "R2"),
            transition("S7", "S0", "c", &["C"], "R3"),
        ],
    );
    let subs = subscriptions(&[("R1", &["A"]), ("R2", &["B"]), ("R3", &["C"])]);
    let (graph, initial, errors) = prepare_graph(proto, &subs);
    assert_eq!(initial, Some(0));
    assert_eq!(errors, vec![]);
    for node in 2..graph.node_count() {
        assert!(graph.node_weight(node).active.is_empty());
    }
    assert!(graph.node_weight(2).roles.is_empty());
    assert!(graph.node_weight(3).roles.is_empty());
    assert_eq!(graph.node_weight(0).roles, roles(&["R1"]));
}

#[test]
fn a_missing_role_observes_nothing() {
    let subs = subscriptions(&[("R1", &["E"]), ("R3", &["A", "B", "C", "D"])]);
    let more = subscriptions(&[("R1", &["E"]), ("R2", &[]), ("R3", &["A", "B", "C", "D"])]);
    let (graph, initial, _) = prepare_graph(linear(), &subs);
    let first = well_formed(&graph, initial.unwrap(), &subs);
    let second = well_formed(&graph, initial.unwrap(), &more);
    assert_eq!(first, second);
}

#[test]
fn involved_marks_successors_without_roles() {
    let (graph, _, _) = prepare_graph(two_loops(), &Subscriptions::new());
    // nothing is observed, so that nothing is recorded at any state
    let mut pending = vec![false; graph.node_count()];
    let found = involved(&graph, 1, &own_events(), &mut pending);
    assert_eq!(found, roles(&["R2", "R6"]));
    assert_eq!(pending, vec![false, false, true, false, true]);
}

#[test]
fn active_holds_the_roles_of_the_leaving_edges() {
    let (graph, _, _) = prepare_graph(two_loops(), &own_events());
    assert_eq!(active(&graph, 2), roles(&["R3", "R4"]));
    assert_eq!(active(&graph, 4), roles(&[]));
}

fn in_turn(proto: SwarmProtocol, subs: &Subscriptions) -> Vec<String> {
    let (g, _, errors) = check(proto, subs);
    Error::convert(errors, &g)
}

#[test]
fn findings_come_edge_by_edge() {
    let subs = subscriptions(&[("R1", &["E"]), ("R3", &["A", "B", "C", "D"])]);
    assert_eq!(in_turn(linear(), &subs), vec![
        "active role does not subscribe to any of its emitted event types in transition (S0)--[a@R1<A,B,C>]-->(S1)",
        "subsequently active role R2 does not subscribe to events in transition (S0)--[a@R1<A,B,C>]-->(S1)",
        "subsequently involved role R3 subscribes to more events than active role R2 in transition (S0)--[a@R1<A,B,C>]-->(S1), namely (A, B, C)",
        "subsequently involved role R1 does not subscribe to guard in transition (S0)--[a@R1<A,B,C>]-->(S1)",
        "active role does not subscribe to any of its emitted event types in transition (S1)--[b@R2<D,E>]-->(S2)",
    ]);
}

#[test]
fn findings_come_newest_transition_first() {
    assert_eq!(in_turn(branching(), &Subscriptions::new()), vec![
        "guard event type A appears in transitions from multiple states",
        "active role does not subscribe to any of its emitted event types in transition (S0)--[a@R<A>]-->(S1)",
        "subsequently active role R does not subscribe to events in transition (S0)--[a@R<A>]-->(S1)",
        "active role does not subscribe to any of its emitted event types in transition (S1)--[b@R<B,A>]-->(S2)",
        "subsequently active role R does not subscribe to events in transition (S1)--[b@R<B,A>]-->(S2)",
        "subsequently active role S does not subscribe to events in transition (S1)--[b@R<B,A>]-->(S2)",
        "active role does not subscribe to any of its emitted event types in transition (S2)--[d@S<A>]-->(S3)",
        "non-deterministic event guard type A in state S2",
        "active role does not subscribe to any of its emitted event types in transition (S2)--[c@S<A>]-->(S3)",
        "active role does not subscribe to any of its emitted event types in transition (S2)--[d@R<A>]-->(S3)",
        "active role does not subscribe to any of its emitted event types in transition (S2)--[c@R<C>]-->(S3)",
        "non-deterministic command c for role R in state S2",
        "active role does not subscribe to any of its emitted event types in transition (S2)--[c@R<A>]-->(S3)",
    ]);
}
