use machine_check::compare::DeterministicLabel;
use machine_check::machine::{
    equivalent, from_json, project, state_name, Error, MachineGraph, Side,
};
use machine_check::sets::Subscriptions;
use machine_check::swarm::check;
use machine_check::text::decimal;
use machine_check::types::{
    CheckResult, Command, EventType, MachineLabel, Protocol, Role, State, SwarmLabel, Transition,
};
use machine_check::{check_projection, Machine, SwarmProtocol};

fn swarm_transition(source: &str, target: &str, role: &str, cmd: &str, log: &[&str]) -> Transition<SwarmLabel> {
    Transition {
        label: SwarmLabel {
            cmd: Command::new(cmd),
            log_type: log.iter().map(|e| EventType::new(e)).collect(),
            role: Role::new(role),
        },
        source: State::new(source),
        target: State::new(target),
    }
}

fn execute(source: &str, target: &str, cmd: &str, log: &[&str]) -> Transition<MachineLabel> {
    Transition {
        label: MachineLabel::Execute {
            cmd: Command::new(cmd),
            log_type: log.iter().map(|e| EventType::new(e)).collect(),
        },
        source: State::new(source),
        target: State::new(target),
    }
}

fn input(source: &str, target: &str, event: &str) -> Transition<MachineLabel> {
    Transition {
        label: MachineLabel::Input { event_type: EventType::new(event) },
        source: State::new(source),
        target: State::new(target),
    }
}

fn subscriptions(entries: &[(&str, &[&str])]) -> Subscriptions {
    let mut subs = Subscriptions::new();
    for (role, events) in entries {
        subs.add_role(Role::new(role));
        for event in events.iter() {
            subs.subscribe(Role::new(role), EventType::new(event));
        }
    }
    subs
}

fn taxi() -> SwarmProtocol {
    Protocol {
        initial: State::new("S0"),
        transitions: vec![
            swarm_transition("S0", "S1", "P", "Request", &["Requested"]),
            swarm_transition("S1", "S2", "T", "Offer", &["Bid", "BidderID"]),
            swarm_transition("S2", "S2", "T", "Offer", &["Bid", "BidderID"]),
            swarm_transition("S2", "S3", "P", "Select", &["Selected", "PassengerID"]),
            swarm_transition("S3", "S6", "P", "Cancel", &["Cancelled"]),
            swarm_transition("S3", "S4", "T", "Arrive", &["Arrived"]),
            swarm_transition("S4", "S5", "P", "Start", &["Started"]),
            swarm_transition("S5", "S5", "T", "Record", &["Path"]),
            swarm_transition("S5", "S6", "P", "Finish", &["Finished", "Rating"]),
            swarm_transition("S6", "S7", "O", "Receipt", &["Receipt"]),
        ],
    }
}

fn taxi_subscriptions() -> Subscriptions {
    let most: &[&str] = &[
        "Requested",
        "Bid",
        "BidderID",
        "Selected",
        "PassengerID",
        "Cancelled",
        "Arrived",
        "Started",
        "Path",
        "Finished",
        "Receipt",
    ];
    subscriptions(&[
        ("P", most),
        ("T", most),
        (
            "O",
            &["Requested", "Bid", "Selected", "Cancelled", "Arrived", "Started", "Path", "Finished", "Receipt"],
        ),
    ])
}

fn passenger() -> Machine {
    Protocol {
        initial: State::new("S0"),
        transitions: vec![
            execute("S0", "S0", "Request", &["Requested"]),
            input("S0", "S1", "Requested"),
            input("S1", "S2", "Bid"),
            input("S2", "S3", "BidderID"),
            execute("S3", "S3", "Select", &["Selected", "PassengerID"]),
            input("S3", "S4", "Bid"),
            input("S4", "S3", "BidderID"),
            input("S3", "S5", "Selected"),
            input("S5", "S6", "PassengerID"),
            execute("S6", "S6", "Cancel", &["Cancelled"]),
            input("S6", "S7", "Cancelled"),
            input("S6", "S8", "Arrived"),
            execute("S8", "S8", "Start", &["Started"]),
            input("S8", "S9", "Started"),
            input("S9", "S9", "Path"),
            execute("S9", "S9", "Finish", &["Finished", "Rating"]),
            input("S9", "S7", "Finished"),
            input("S7", "S10", "Receipt"),
        ],
    }
}

fn json(result: &CheckResult) -> String {
    match result {
        CheckResult::OK => r#"{"type":"OK"}"#.to_owned(),
        CheckResult::ERROR { errors } => {
            format!(r#"{{"type":"ERROR","errors":{}}}"#, serde_json::to_string(errors).unwrap())
        }
    }
}

#[test]
fn paper() {
    let result = check_projection(taxi(), &taxi_subscriptions(), Role::new("P"), passenger()).unwrap();
    assert_eq!(
        json(&result),
        r#"{"type":"ERROR","errors":["guard event type Bid appears in transitions from multiple states"]}"#
    );
}

fn labels(g: &MachineGraph) -> Vec<(usize, usize, String)> {
    (0..g.edge_count())
        .map(|e| {
            let (source, target) = g.edge_endpoints(e).unwrap();
            (source, target, g.edge_weight(e).to_string())
        })
        .collect()
}

fn names(g: &MachineGraph) -> Vec<Option<&str>> {
    (0..g.node_count()).map(|n| g.node_weight(n).as_ref().map(|s| s.as_str())).collect()
}

#[test]
fn projection_of_the_passenger() {
    let subs = taxi_subscriptions();
    let (swarm, initial, _) = check(taxi(), &subs);
    let (machine, start) = project(&swarm, 0, &subs, Role::new("P")).unwrap();
    assert_eq!(initial, Some(0));
    assert_eq!(start, 0);
    // one named node for each state, then the nodes between the events of a log
    let named: Vec<Option<&str>> = names(&machine).into_iter().take(8).collect();
    let mut sorted: Vec<&str> = named.iter().map(|n| n.unwrap()).collect();
    sorted.sort();
    assert_eq!(sorted, vec!["S0", "S1", "S2", "S3", "S4", "S5", "S6", "S7"]);
    assert_eq!(machine.node_count(), 8 + 3);
    assert!(names(&machine)[8..].iter().all(|n| n.is_none()));
    let edges = labels(&machine);
    let node = |name: &str| names(&machine).iter().position(|n| *n == Some(name)).unwrap();
    // the commands of the passenger, each a self-loop at its state
    let commands: Vec<&(usize, usize, String)> = edges.iter().filter(|e| e.2.contains('/')).collect();
    let mut found: Vec<(&str, &str)> = commands
        .iter()
        .map(|e| {
            assert_eq!(e.0, e.1);
            (names(&machine)[e.0].unwrap(), e.2.as_str())
        })
        .collect();
    found.sort();
    assert_eq!(
        found,
        vec![
            ("S0", "Request/Requested"),
            ("S2", "Select/Selected,PassengerID"),
            ("S3", "Cancel/Cancelled"),
            ("S4", "Start/Started"),
            ("S5", "Finish/Finished,Rating"),
        ]
    );
    // an input for each observed event, in the order of the log
    let inputs: Vec<&(usize, usize, String)> = edges.iter().filter(|e| e.2.ends_with('?')).collect();
    assert_eq!(inputs.len(), 1 + 2 + 2 + 2 + 1 + 1 + 1 + 1 + 1 + 1);
    let bid: Vec<&&(usize, usize, String)> =
        inputs.iter().filter(|e| e.0 == node("S1") && e.2 == "Bid?").collect();
    assert_eq!(bid.len(), 1);
    let middle = bid[0].1;
    assert_eq!(names(&machine)[middle], None);
    assert!(inputs.iter().any(|e| e.0 == middle && e.1 == node("S2") && e.2 == "BidderID?"));
    assert_eq!(state_name(&machine, middle), "S1(+1)");
    // the passenger does not observe the rating
    assert!(inputs.iter().any(|e| e.0 == node("S5") && e.1 == node("S6") && e.2 == "Finished?"));
    assert!(!inputs.iter().any(|e| e.2 == "Rating?"));
}

#[test]
fn projection_is_the_same_each_time() {
    let subs = taxi_subscriptions();
    let (swarm, _, _) = check(taxi(), &subs);
    let (first, a) = project(&swarm, 0, &subs, Role::new("T")).unwrap();
    let (second, b) = project(&swarm, 0, &subs, Role::new("T")).unwrap();
    assert_eq!(a, b);
    assert_eq!(names(&first), names(&second));
    assert_eq!(labels(&first), labels(&second));
}

#[test]
fn projection_keeps_what_the_role_reaches() {
    // the role observes only the first transition: the states behind the second are cut off
    let proto: SwarmProtocol = Protocol {
        initial: State::new("S0"),
        transitions: vec![
            swarm_transition("S0", "S1", "R", "a", &["A", "X"]),
            swarm_transition("S1", "S2", "R", "b", &["B"]),
        ],
    };
    let subs = subscriptions(&[("R", &["A"])]);
    let (swarm, _, _) = check(proto, &subs);
    let (machine, start) = project(&swarm, 0, &subs, Role::new("R")).unwrap();
    assert_eq!(start, 0);
    assert_eq!(names(&machine), vec![Some("S0"), Some("S1")]);
    assert_eq!(
        labels(&machine),
        vec![(0, 0, "a/A,X".to_owned()), (0, 1, "A?".to_owned())]
    );
}

#[test]
fn projection_needs_the_sources_of_observed_transitions() {
    // S9 is not reached from S0, and its transition into S1 is observed
    let proto: SwarmProtocol = Protocol {
        initial: State::new("S0"),
        transitions: vec![
            swarm_transition("S0", "S1", "R", "a", &["A"]),
            swarm_transition("S9", "S1", "R", "b", &["A"]),
        ],
    };
    let subs = subscriptions(&[("R", &["A"])]);
    let (swarm, _, _) = check(proto, &subs);
    assert!(project(&swarm, 0, &subs, Role::new("R")).is_none());
}

#[test]
fn machine_commands_must_be_self_loops() {
    let machine: Machine = Protocol {
        initial: State::new("S0"),
        transitions: vec![execute("S0", "S1", "go", &["Gone"]), input("S1", "S0", "Gone")],
    };
    let (graph, initial, errors) = from_json(machine);
    assert_eq!(initial, Some(0));
    assert_eq!(graph.node_count(), 2);
    assert_eq!(errors, vec!["command go is not a self-loop in state S0"]);
}

#[test]
fn machine_without_initial_state() {
    let machine: Machine = Protocol {
        initial: State::new("S5"),
        transitions: vec![input("S0", "S1", "A")],
    };
    let (_, initial, errors) = from_json(machine);
    assert_eq!(initial, None);
    assert_eq!(errors, Vec::<String>::new());
}

fn load(transitions: Vec<Transition<MachineLabel>>) -> MachineGraph {
    let (graph, initial, errors) = from_json(Protocol { initial: State::new("S0"), transitions });
    assert_eq!(initial, Some(0));
    assert_eq!(errors, Vec::<String>::new());
    graph
}

#[test]
fn equal_machines_have_no_differences() {
    let left = load(vec![
        execute("S0", "S0", "go", &["A"]),
        input("S0", "S1", "A"),
        input("S1", "S0", "B"),
    ]);
    let right = load(vec![
        input("S0", "T", "A"),
        input("T", "S0", "B"),
        execute("S0", "S0", "go", &["A"]),
    ]);
    assert_eq!(equivalent(&left, 0, &right, 0), vec![]);
}

#[test]
fn missing_and_extraneous_transitions() {
    let left = load(vec![input("S0", "S1", "A"), input("S0", "S2", "B"), input("S1", "S3", "X")]);
    let right = load(vec![input("S0", "S1", "B"), input("S0", "S2", "C"), input("S2", "S3", "Y")]);
    let errors = equivalent(&left, 0, &right, 0);
    assert_eq!(
        errors,
        vec![Error::MissingTransition(Side::Right, 0, 0), Error::MissingTransition(Side::Left, 0, 1)]
    );
    assert_eq!(
        Error::convert(errors, &left, &right),
        vec![
            "missing transition A? in state S0 (from reference state S0)",
            "extraneous transition C? in state S0",
        ]
    );
}

#[test]
fn repeated_keys_are_not_deterministic() {
    let left = load(vec![input("S0", "S1", "A"), input("S0", "S2", "A")]);
    let right = load(vec![input("S0", "S1", "A"), execute("S0", "S0", "c", &["A"]), execute("S0", "S0", "c", &["B"])]);
    let errors = equivalent(&left, 0, &right, 0);
    assert_eq!(
        errors,
        vec![
            Error::NonDeterministic(Side::Left, 0),
            Error::NonDeterministic(Side::Right, 1),
            Error::MissingTransition(Side::Left, 0, 2),
        ]
    );
    assert_eq!(
        Error::convert(errors, &left, &right),
        vec![
            "non-deterministic transition A? in state S0 of the reference",
            "non-deterministic transition c/A in state S0 of the specimen",
            "extraneous transition c/B in state S0",
        ]
    );
}

#[test]
fn differences_stop_the_descent() {
    // the pair of S0 differs, so that the difference behind the matching A is not looked for
    let left = load(vec![input("S0", "S1", "A"), input("S0", "S1", "B"), input("S1", "S2", "X")]);
    let right = load(vec![input("S0", "S1", "A"), input("S1", "S2", "Y")]);
    assert_eq!(equivalent(&left, 0, &right, 0), vec![Error::MissingTransition(Side::Right, 0, 1)]);
}

#[test]
fn messages_on_edges_that_do_not_exist() {
    let left = load(vec![input("S0", "S1", "A")]);
    let right = load(vec![input("S0", "S1", "A")]);
    assert_eq!(
        Error::NonDeterministic(Side::Left, 7).to_string(&left, &right),
        "non-deterministic transition in reference"
    );
    assert_eq!(
        Error::NonDeterministic(Side::Right, 7).to_string(&left, &right),
        "non-deterministic transition in specimen"
    );
    assert_eq!(
        Error::MissingTransition(Side::Left, 1, 7).to_string(&left, &right),
        "extraneous transition [invalid] in state S1"
    );
    assert_eq!(
        Error::MissingTransition(Side::Right, 9, 7).to_string(&left, &right),
        "missing transition in [invalid]"
    );
}

#[test]
fn keys_order_commands_before_events() {
    let command = DeterministicLabel::from(&execute("S", "S", "z", &["a"]).label);
    let other = DeterministicLabel::from(&execute("S", "S", "z", &["b"]).label);
    let event = DeterministicLabel::from(&input("S", "S", "a").label);
    assert!(command.below(&event));
    assert!(!event.below(&command));
    assert!(command.same(&other));
    assert!(!command.same(&event));
    assert_eq!(input("S", "T", "ev").label.to_string(), "ev?");
}

#[test]
fn numbers_in_decimal() {
    assert_eq!(decimal(0), "0");
    assert_eq!(decimal(7), "7");
    assert_eq!(decimal(10), "10");
    assert_eq!(decimal(4096), "4096");
}

#[test]
fn projected_machine_is_accepted() {
    let proto: SwarmProtocol = Protocol {
        initial: State::new("S0"),
        transitions: vec![
            swarm_transition("S0", "S1", "R", "a", &["A", "B"]),
            swarm_transition("S1", "S0", "R", "b", &["C"]),
        ],
    };
    let subs = subscriptions(&[("R", &["A", "B", "C"])]);
    let good: Machine = Protocol {
        initial: State::new("X"),
        transitions: vec![
            execute("X", "X", "a", &["A", "B"]),
            input("X", "Y", "A"),
            input("Y", "Z", "B"),
            execute("Z", "Z", "b", &["C"]),
            input("Z", "X", "C"),
        ],
    };
    let same = |p: &SwarmProtocol| Protocol {
        initial: State::new(p.initial.as_str()),
        transitions: p
            .transitions
            .iter()
            .map(|t| Transition { label: t.label.clone(), source: t.source.clone(), target: t.target.clone() })
            .collect(),
    };
    assert_eq!(check_projection(same(&proto), &subs, Role::new("R"), good), Some(CheckResult::OK));
    let bad: Machine = Protocol {
        initial: State::new("X"),
        transitions: vec![
            execute("X", "X", "a", &["A", "B"]),
            input("X", "Y", "A"),
            input("Y", "Z", "B"),
            input("Z", "X", "C"),
            input("X", "X", "D"),
        ],
    };
    assert_eq!(
        check_projection(same(&proto), &subs, Role::new("R"), bad),
        Some(CheckResult::ERROR {
            errors: vec!["extraneous transition D? in state S0".to_owned()]
        })
    );
    let lost: Machine = Protocol { initial: State::new("Q"), transitions: vec![input("X", "Y", "A")] };
    assert_eq!(
        check_projection(same(&proto), &subs, Role::new("R"), lost),
        Some(CheckResult::ERROR {
            errors: vec!["initial machine state has no transitions".to_owned()]
        })
    );
}

#[test]
fn projection_shape() {
    let every: &[&str] = &[
        "Requested",
        "Bid",
        "BidderID",
        "Selected",
        "PassengerID",
        "Cancelled",
        "Arrived",
        "Started",
        "Path",
        "Finished",
        "Rating",
        "Receipt",
    ];
    let subs = subscriptions(&[("P", every), ("T", every), ("O", every)]);
    let (swarm, initial, _) = check(taxi(), &subs);
    let (machine, start) = project(&swarm, initial.unwrap(), &subs, Role::new("P")).unwrap();
    assert_eq!(state_name(&machine, start), "S0");
    let mut edges: Vec<(String, String, String)> = labels(&machine)
        .into_iter()
        .map(|(source, target, label)| (state_name(&machine, source), label, state_name(&machine, target)))
        .collect();
    edges.sort();
    let mut expected: Vec<(String, String, String)> = [
        ("S0", "Request/Requested", "S0"),
        ("S0", "Requested?", "S1"),
        ("S1", "Bid?", "S1(+1)"),
        ("S1(+1)", "BidderID?", "S2"),
        ("S2", "Bid?", "S2(+1)"),
        ("S2(+1)", "BidderID?", "S2"),
        ("S2", "Select/Selected,PassengerID", "S2"),
        ("S2", "Selected?", "S2(+1)"),
        ("S2(+1)", "PassengerID?", "S3"),
        ("S3", "Cancel/Cancelled", "S3"),
        ("S3", "Cancelled?", "S6"),
        ("S3", "Arrived?", "S4"),
        ("S4", "Start/Started", "S4"),
        ("S4", "Started?", "S5"),
        ("S5", "Path?", "S5"),
        ("S5", "Finish/Finished,Rating", "S5"),
        ("S5", "Finished?", "S5(+1)"),
        ("S5(+1)", "Rating?", "S6"),
        ("S6", "Receipt?", "S7"),
    ]
    .iter()
    .map(|(a, b, c)| (a.to_string(), b.to_string(), c.to_string()))
    .collect();
    expected.sort();
    assert_eq!(edges, expected);
    assert_eq!(machine.node_count(), 8 + 4);
}

#[test]
fn a_pair_is_visited_once() {
    // both branches lead to the same pair of states, whose difference is found once
    let left = load(vec![
        input("S0", "S1", "A"),
        input("S0", "S2", "B"),
        input("S1", "S3", "C"),
        input("S2", "S3", "C"),
        input("S3", "S4", "X"),
    ]);
    let right = load(vec![
        input("S0", "S1", "A"),
        input("S0", "S2", "B"),
        input("S1", "S3", "C"),
        input("S2", "S3", "C"),
        input("S3", "S4", "Y"),
    ]);
    assert_eq!(
        equivalent(&left, 0, &right, 0),
        vec![Error::MissingTransition(Side::Right, 3, 4), Error::MissingTransition(Side::Left, 3, 4)]
    );
}
