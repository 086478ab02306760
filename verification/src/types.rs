//! The vocabulary of protocols: interned names of four kinds, transition
//! labels, protocols and the result of a check.

use crate::text::{text_lt, Text};
use vstd::prelude::*;

verus! {

/// `intern_arc::InternedHash`: a handle to an interned value. Nothing is
/// known of a handle but the string it stands for.
#[verifier::external_type_specification]
#[verifier::external_body]
#[verifier::reject_recursive_types(T)]
pub struct ExInternedHash<T: ?Sized + Eq + std::hash::Hash>(intern_arc::InternedHash<T>);

/// The string that an interned handle stands for.
pub uninterp spec fn interned_text(handle: intern_arc::InternedHash<str>) -> Text;

/// `intern_arc::global::hash_interner::<str>().intern_ref`: hands out the
/// handle of the process-wide interner that stands for the given string,
/// storing the string the first time it is seen.
#[verifier::external_body]
fn intern(name: &str) -> (handle: intern_arc::InternedHash<str>)
    ensures
        interned_text(handle) == name@,
{
    intern_arc::global::hash_interner::<str>().intern_ref(name)
}

/// `InternedHash::deref`: the string behind a handle.
#[verifier::external_body]
fn interned_str(handle: &intern_arc::InternedHash<str>) -> (s: &str)
    ensures
        s@ == interned_text(*handle),
{
    std::ops::Deref::deref(handle)
}

/// `InternedHash::clone`: a second handle to the same string.
#[verifier::external_body]
fn interned_clone(handle: &intern_arc::InternedHash<str>) -> (copy: intern_arc::InternedHash<str>)
    ensures
        interned_text(copy) == interned_text(*handle),
{
    handle.clone()
}

/// `InternedHash::eq`: handles are equal exactly when they stand for the
/// same string, whichever interner made them.
#[verifier::external_body]
fn interned_eq(a: &intern_arc::InternedHash<str>, b: &intern_arc::InternedHash<str>) -> (same: bool)
    ensures
        same == (interned_text(*a) == interned_text(*b)),
{
    a == b
}

/// `InternedHash::lt`: handles are ordered as their strings are, which `str`
/// orders lexicographically by code point.
#[verifier::external_body]
fn interned_lt(a: &intern_arc::InternedHash<str>, b: &intern_arc::InternedHash<str>) -> (below: bool)
    ensures
        below == text_lt(interned_text(*a), interned_text(*b)),
{
    a < b
}

/// An interned string: the common representation of the four kinds of name.
#[derive(Debug, PartialEq, Eq, PartialOrd, Ord, Hash)]
pub struct Name {
    handle: intern_arc::InternedHash<str>,
}

impl View for Name {
    type V = Text;

    closed spec fn view(&self) -> Text {
        interned_text(self.handle)
    }
}

impl Clone for Name {
    fn clone(&self) -> (copy: Self)
        ensures
            copy@ == self@,
    {
        Name { handle: interned_clone(&self.handle) }
    }
}

impl Name {
    /// Interns `name`.
    pub fn new(name: &str) -> (n: Name)
        ensures
            n@ == name@,
    {
        Name { handle: intern(name) }
    }

    /// The interned string.
    pub fn as_str(&self) -> (s: &str)
        ensures
            s@ == self@,
    {
        interned_str(&self.handle)
    }

    /// Whether both names are the same string.
    pub fn same(&self, other: &Name) -> (r: bool)
        ensures
            r == (self@ == other@),
    {
        interned_eq(&self.handle, &other.handle)
    }

    /// Whether this name sorts strictly before `other`.
    pub fn below(&self, other: &Name) -> (r: bool)
        ensures
            r == text_lt(self@, other@),
    {
        interned_lt(&self.handle, &other.handle)
    }
}

/// What the four kinds of name have in common: each is an interned string.
pub trait Named: Sized {
    /// The string this name stands for.
    spec fn text(&self) -> Text;

    /// The interned string behind this name.
    fn name(&self) -> (n: &Name)
        ensures
            n@ == self.text(),
    ;

    /// A name of this kind for an interned string.
    fn from_name(n: Name) -> (r: Self)
        ensures
            r.text() == n@,
    ;
}

/// The texts of a sequence of names.
pub open spec fn texts<T: Named>(s: Seq<T>) -> Seq<Text> {
    s.map_values(|x: T| x.text())
}

/// The name of a protocol state.
#[derive(Debug, PartialEq, Eq, PartialOrd, Ord, Hash)]
pub struct State {
    name: Name,
}

impl View for State {
    type V = Text;

    closed spec fn view(&self) -> Text {
        self.name@
    }
}

impl Named for State {
    open spec fn text(&self) -> Text {
        self@
    }

    fn name(&self) -> (n: &Name) {
        &self.name
    }

    fn from_name(n: Name) -> (r: Self) {
        State { name: n }
    }
}

impl Clone for State {
    fn clone(&self) -> (copy: Self)
        ensures
            copy@ == self@,
    {
        State { name: self.name.clone() }
    }
}

impl State {
    /// Interns `name` as a state name.
    pub fn new(name: &str) -> (s: State)
        ensures
            s@ == name@,
    {
        State { name: Name::new(name) }
    }

    /// The state's name as a string.
    pub fn as_str(&self) -> (s: &str)
        ensures
            s@ == self@,
    {
        self.name.as_str()
    }
}

/// The name of a participant.
#[derive(Debug, PartialEq, Eq, PartialOrd, Ord, Hash)]
pub struct Role {
    name: Name,
}

impl View for Role {
    type V = Text;

    closed spec fn view(&self) -> Text {
        self.name@
    }
}

impl Named for Role {
    open spec fn text(&self) -> Text {
        self@
    }

    fn name(&self) -> (n: &Name) {
        &self.name
    }

    fn from_name(n: Name) -> (r: Self) {
        Role { name: n }
    }
}

impl Clone for Role {
    fn clone(&self) -> (copy: Self)
        ensures
            copy@ == self@,
    {
        Role { name: self.name.clone() }
    }
}

impl Role {
    /// Interns `name` as a role.
    pub fn new(name: &str) -> (r: Role)
        ensures
            r@ == name@,
    {
        Role { name: Name::new(name) }
    }

    /// The name as a string.
    pub fn as_str(&self) -> (s: &str)
        ensures
            s@ == self@,
    {
        self.name.as_str()
    }
}

/// The name of a command.
#[derive(Debug, PartialEq, Eq, PartialOrd, Ord, Hash)]
pub struct Command {
    name: Name,
}

impl View for Command {
    type V = Text;

    closed spec fn view(&self) -> Text {
        self.name@
    }
}

impl Named for Command {
    open spec fn text(&self) -> Text {
        self@
    }

    fn name(&self) -> (n: &Name) {
        &self.name
    }

    fn from_name(n: Name) -> (r: Self) {
        Command { name: n }
    }
}

impl Clone for Command {
    fn clone(&self) -> (copy: Self)
        ensures
            copy@ == self@,
    {
        Command { name: self.name.clone() }
    }
}

impl Command {
    /// Interns `name` as a command name.
    pub fn new(name: &str) -> (r: Command)
        ensures
            r@ == name@,
    {
        Command { name: Name::new(name) }
    }

    /// The name as a string.
    pub fn as_str(&self) -> (s: &str)
        ensures
            s@ == self@,
    {
        self.name.as_str()
    }
}

/// The name of an event type.
#[derive(Debug, PartialEq, Eq, PartialOrd, Ord, Hash)]
pub struct EventType {
    name: Name,
}

impl View for EventType {
    type V = Text;

    closed spec fn view(&self) -> Text {
        self.name@
    }
}

impl Named for EventType {
    open spec fn text(&self) -> Text {
        self@
    }

    fn name(&self) -> (n: &Name) {
        &self.name
    }

    fn from_name(n: Name) -> (r: Self) {
        EventType { name: n }
    }
}

impl Clone for EventType {
    fn clone(&self) -> (copy: Self)
        ensures
            copy@ == self@,
    {
        EventType { name: self.name.clone() }
    }
}

impl EventType {
    /// Interns `name` as an event type.
    pub fn new(name: &str) -> (r: EventType)
        ensures
            r@ == name@,
    {
        EventType { name: Name::new(name) }
    }

    /// The name as a string.
    pub fn as_str(&self) -> (s: &str)
        ensures
            s@ == self@,
    {
        self.name.as_str()
    }
}


/// A copy of a name of any kind.
pub fn dup<T: Named>(x: &T) -> (copy: T)
    ensures
        copy.text() == x.text(),
{
    T::from_name(x.name().clone())
}

/// A copy of a list of names.
pub fn dup_all<T: Named>(v: &Vec<T>) -> (copy: Vec<T>)
    ensures
        texts(copy@) == texts(v@),
{
    let mut copy: Vec<T> = Vec::new();
    let mut i: usize = 0;
    while i < v.len()
        invariant
            i <= v.len(),
            copy.len() == i,
            forall|k: int| 0 <= k < i ==> (#[trigger] copy[k]).text() == v[k].text(),
        decreases v.len() - i,
    {
        copy.push(dup(&v[i]));
        i += 1;
    }
    assert(texts(copy@) =~= texts(v@));
    copy
}

/// The texts of `items` with `sep` between each two neighbours.
pub open spec fn join_texts(items: Seq<Text>, sep: Text) -> Text
    decreases items.len(),
{
    if items.len() == 0 {
        Seq::empty()
    } else if items.len() == 1 {
        items[0]
    } else {
        join_texts(items.drop_last(), sep) + sep + items.last()
    }
}

/// The event types of a log, separated by commas.
pub fn print_log(log: &Vec<EventType>) -> (out: String)
    ensures
        out@ == join_texts(texts(log@), ","@),
{
    let mut out = String::new();
    let mut i: usize = 0;
    while i < log.len()
        invariant
            i <= log.len(),
            out@ == join_texts(texts(log@).take(i as int), ","@),
        decreases log.len() - i,
    {
        let ghost before = texts(log@).take(i as int);
        let ghost after = texts(log@).take(i + 1);
        if i > 0 {
            out.append(",");
        }
        out.append(log[i].as_str());
        proof {
            assert(after.drop_last() =~= before);
            assert(after.last() == log[i as int]@);
            if i == 0 {
                assert(out@ =~= after[0]);
            }
        }
        i += 1;
    }
    assert(texts(log@).take(log.len() as int) =~= texts(log@));
    out
}

/// The label of a transition of a swarm protocol: `role` issues `cmd`, which
/// emits the events of `log_type` in order. The first of them is the guard.
#[derive(Debug, PartialEq, Eq, PartialOrd, Ord, Hash)]
pub struct SwarmLabel {
    pub cmd: Command,
    pub log_type: Vec<EventType>,
    pub role: Role,
}

/// The mathematical model of a [`SwarmLabel`].
pub ghost struct SwarmLabelView {
    pub cmd: Text,
    pub log: Seq<Text>,
    pub role: Text,
}

impl View for SwarmLabel {
    type V = SwarmLabelView;

    open spec fn view(&self) -> SwarmLabelView {
        SwarmLabelView { cmd: self.cmd@, log: texts(self.log_type@), role: self.role@ }
    }
}

/// The display form of a swarm label: `cmd@role<ev1,ev2,...>`.
pub open spec fn swarm_label_text(label: SwarmLabelView) -> Text {
    label.cmd + "@"@ + label.role + "<"@ + join_texts(label.log, ","@) + ">"@
}

impl Clone for SwarmLabel {
    fn clone(&self) -> (copy: Self)
        ensures
            copy@ == self@,
    {
        SwarmLabel {
            cmd: self.cmd.clone(),
            log_type: dup_all(&self.log_type),
            role: self.role.clone(),
        }
    }
}

impl SwarmLabel {
    /// The display form `cmd@role<ev1,ev2,...>`.
    pub fn to_string(&self) -> (out: String)
        ensures
            out@ == swarm_label_text(self@),
    {
        let mut out = String::from_str(self.cmd.as_str());
        out.append("@");
        out.append(self.role.as_str());
        out.append("<");
        let log = print_log(&self.log_type);
        out.append(log.as_str());
        out.append(">");
        out
    }
}

/// The label of a transition of a machine: a command that the role may
/// issue, always on a self-loop, or the consumption of one observed event.
#[derive(Debug, PartialEq, Eq, PartialOrd, Ord, Hash)]
pub enum MachineLabel {
    Execute { cmd: Command, log_type: Vec<EventType> },
    Input { event_type: EventType },
}

/// The mathematical model of a [`MachineLabel`].
pub ghost enum MachineLabelView {
    Execute { cmd: Text, log: Seq<Text> },
    Input { event: Text },
}

impl View for MachineLabel {
    type V = MachineLabelView;

    open spec fn view(&self) -> MachineLabelView {
        match self {
            MachineLabel::Execute { cmd, log_type } => MachineLabelView::Execute {
                cmd: cmd@,
                log: texts(log_type@),
            },
            MachineLabel::Input { event_type } => MachineLabelView::Input { event: event_type@ },
        }
    }
}

/// The display form of a machine label: `cmd/ev1,ev2,...` or `event?`.
pub open spec fn machine_label_text(label: MachineLabelView) -> Text {
    match label {
        MachineLabelView::Execute { cmd, log } => cmd + "/"@ + join_texts(log, ","@),
        MachineLabelView::Input { event } => event + "?"@,
    }
}

impl Clone for MachineLabel {
    fn clone(&self) -> (copy: Self)
        ensures
            copy@ == self@,
    {
        match self {
            MachineLabel::Execute { cmd, log_type } => MachineLabel::Execute {
                cmd: cmd.clone(),
                log_type: dup_all(log_type),
            },
            MachineLabel::Input { event_type } => MachineLabel::Input {
                event_type: event_type.clone(),
            },
        }
    }
}

impl MachineLabel {
    /// The display form `cmd/ev1,ev2,...` or `event?`.
    pub fn to_string(&self) -> (out: String)
        ensures
            out@ == machine_label_text(self@),
    {
        match self {
            MachineLabel::Execute { cmd, log_type } => {
                let mut out = String::from_str(cmd.as_str());
                out.append("/");
                let log = print_log(log_type);
                out.append(log.as_str());
                out
            },
            MachineLabel::Input { event_type } => {
                let mut out = String::from_str(event_type.as_str());
                out.append("?");
                out
            },
        }
    }
}

/// One transition of a protocol.
#[derive(Debug, PartialEq, Eq, PartialOrd, Ord)]
pub struct Transition<L> {
    pub label: L,
    pub source: State,
    pub target: State,
}

/// A protocol: an initial state and a list of transitions. Several
/// transitions may link the same two states.
#[derive(Debug, PartialEq, Eq, PartialOrd, Ord)]
pub struct Protocol<L> {
    pub initial: State,
    pub transitions: Vec<Transition<L>>,
}

/// The outcome of a check: success, or the list of diagnostics.
#[derive(Debug, PartialEq, Eq)]
pub enum CheckResult {
    OK,
    ERROR { errors: Vec<String> },
}

/// A node payload that carries the name of its state.
pub trait StateName {
    /// The text of the state's name.
    spec fn name_text(&self) -> Text;

    /// The name of the state.
    fn state_name(&self) -> (s: &State)
        ensures
            s@ == self.name_text(),
    ;
}

impl StateName for State {
    open spec fn name_text(&self) -> Text {
        self@
    }

    fn state_name(&self) -> (s: &State) {
        self
    }
}

} // verus!
