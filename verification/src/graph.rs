//! The graph model: a directed multigraph whose nodes and edges are numbered
//! in the order of their insertion. The links between the nodes are kept by
//! a `petgraph` graph, which also walks them; what a node or an edge carries
//! is kept beside it, under the same number.

use petgraph::graph::{EdgeIndex, NodeIndex};
use petgraph::visit::{Dfs, DfsPostOrder, EdgeFiltered, EdgeRef, Walker};
use vstd::prelude::*;

verus! {

/// The number of a node: its position in the order of insertion.
pub type NodeId = usize;

/// The number of an edge: its position in the order of insertion.
pub type EdgeId = usize;

/// The links of a graph, kept by `petgraph` without any payload.
pub type Links = petgraph::graph::Graph<(), ()>;

/// `petgraph::graph::Graph`: a graph that keeps, for each node, the lists
/// of the edges that leave and that enter it. What a graph holds is known
/// through the names below only.
#[verifier::external_type_specification]
#[verifier::external_body]
#[verifier::reject_recursive_types(N)]
#[verifier::reject_recursive_types(E)]
#[verifier::reject_recursive_types(Ty)]
#[verifier::reject_recursive_types(Ix)]
pub struct ExGraph<N, E, Ty, Ix>(petgraph::graph::Graph<N, E, Ty, Ix>);

/// `petgraph::Directed`: the marker of a graph whose edges have a
/// direction.
#[verifier::external_type_specification]
#[verifier::external_body]
pub struct ExDirected(petgraph::Directed);

/// The largest number of nodes, and of edges, that a graph can hold.
pub const MAX_ITEMS: usize = 0xffff_fffe;

/// The number of nodes of a `petgraph` graph.
pub uninterp spec fn links_nodes(g: Links) -> nat;

/// The edges of a `petgraph` graph by number, each as its source and target.
pub uninterp spec fn links_edges(g: Links) -> Seq<(int, int)>;

/// Whether the graph lists the edges at each node newest first, as every
/// graph does from which nothing was ever removed.
pub uninterp spec fn links_newest_first(g: Links) -> bool;

/// The order in which `petgraph` visits the nodes in a depth-first search
/// from `start` that follows only the edges marked in `keep`.
pub uninterp spec fn dfs_order(nodes: nat, edges: Seq<(int, int)>, keep: Seq<bool>, start: int) -> Seq<
    int,
>;

/// The order in which `petgraph` finishes the nodes in a depth-first search
/// from `start` that follows only the edges marked in `keep`.
pub uninterp spec fn dfs_post_order(
    nodes: nat,
    edges: Seq<(int, int)>,
    keep: Seq<bool>,
    start: int,
) -> Seq<int>;

/// The shape of a graph: how many nodes it has, and the source and target
/// of each edge.
pub ghost struct Shape {
    pub nodes: nat,
    pub edges: Seq<(int, int)>,
}

/// A sequence of numbers as mathematical integers.
pub open spec fn ids(v: Seq<usize>) -> Seq<int> {
    v.map_values(|x: usize| x as int)
}

/// The edges among `edges` that leave `n` (or, with `incoming`, that enter
/// it), newest first.
pub open spec fn incident(edges: Seq<(int, int)>, n: int, incoming: bool) -> Seq<int>
    decreases edges.len(),
{
    if edges.len() == 0 {
        Seq::empty()
    } else {
        let rest = incident(edges.drop_last(), n, incoming);
        let end = if incoming {
            edges.last().1
        } else {
            edges.last().0
        };
        if end == n {
            seq![edges.len() - 1] + rest
        } else {
            rest
        }
    }
}

impl Shape {
    /// Every edge links two nodes of the graph.
    pub open spec fn wf(self) -> bool {
        forall|e: int|
            0 <= e < self.edges.len() ==> 0 <= (#[trigger] self.edges[e]).0 < self.nodes && 0
                <= self.edges[e].1 < self.nodes
    }

    /// Whether `e` is an edge of the graph.
    pub open spec fn has_edge(self, e: int) -> bool {
        0 <= e < self.edges.len()
    }

    /// Whether `n` is a node of the graph.
    pub open spec fn has_node(self, n: int) -> bool {
        0 <= n < self.nodes
    }

    /// The edges that leave `n`, newest first.
    pub open spec fn outgoing(self, n: int) -> Seq<int> {
        incident(self.edges, n, false)
    }

    /// The edges that enter `n`, newest first.
    pub open spec fn incoming(self, n: int) -> Seq<int> {
        incident(self.edges, n, true)
    }

    /// Whether an edge marked in `keep` leads from `a` to `b`.
    pub open spec fn linked(self, keep: Seq<bool>, a: int, b: int) -> bool {
        exists|e: int| self.has_edge(e) && #[trigger] keep[e] && self.edges[e] == (a, b)
    }

    /// Whether `b` is reached from `a` over exactly `k` edges marked in
    /// `keep`.
    pub open spec fn reaches_in(self, keep: Seq<bool>, a: int, b: int, k: nat) -> bool
        decreases k,
    {
        if k == 0 {
            a == b
        } else {
            exists|m: int|
                self.reaches_in(keep, a, m, (k - 1) as nat) && #[trigger] self.linked(keep, m, b)
        }
    }

    /// Whether `b` is reached from `a` over edges marked in `keep`.
    pub open spec fn reaches(self, keep: Seq<bool>, a: int, b: int) -> bool {
        exists|k: nat| self.reaches_in(keep, a, b, k)
    }

    /// The mark that keeps every edge.
    pub open spec fn all(self) -> Seq<bool> {
        Seq::new(self.edges.len(), |e: int| true)
    }

    /// Whether `b` is reached from `a` over any edges.
    pub open spec fn connects(self, a: int, b: int) -> bool {
        self.reaches(self.all(), a, b)
    }
}

/// Every node reaches itself.
pub proof fn lemma_reaches_self(s: Shape, keep: Seq<bool>, a: int)
    ensures
        s.reaches(keep, a, a),
{
    assert(s.reaches_in(keep, a, a, 0));
}

/// A kept edge extends what is reached.
pub proof fn lemma_reaches_step(s: Shape, keep: Seq<bool>, a: int, m: int, b: int)
    requires
        s.reaches(keep, a, m),
        s.linked(keep, m, b),
    ensures
        s.reaches(keep, a, b),
{
    let k = choose|k: nat| s.reaches_in(keep, a, m, k);
    assert(((k + 1) - 1) as nat == k);
    assert(s.reaches_in(keep, a, b, k + 1));
}

/// Reaching is transitive.
pub proof fn lemma_reaches_trans(s: Shape, keep: Seq<bool>, a: int, m: int, b: int)
    requires
        s.reaches(keep, a, m),
        s.reaches(keep, m, b),
    ensures
        s.reaches(keep, a, b),
{
    let k = choose|k: nat| s.reaches_in(keep, m, b, k);
    lemma_reaches_trans_in(s, keep, a, m, b, k);
}

/// Reaching is transitive, by the number of steps of the second part.
proof fn lemma_reaches_trans_in(s: Shape, keep: Seq<bool>, a: int, m: int, b: int, k: nat)
    requires
        s.reaches(keep, a, m),
        s.reaches_in(keep, m, b, k),
    ensures
        s.reaches(keep, a, b),
    decreases k,
{
    if k > 0 {
        let x = choose|x: int|
            s.reaches_in(keep, m, x, (k - 1) as nat) && #[trigger] s.linked(keep, x, b);
        lemma_reaches_trans_in(s, keep, a, m, x, (k - 1) as nat);
        lemma_reaches_step(s, keep, a, x, b);
    }
}

/// What is reached in a well-formed graph from one of its nodes is one of
/// its nodes.
pub proof fn lemma_reaches_node(s: Shape, keep: Seq<bool>, a: int, b: int)
    requires
        s.wf(),
        s.has_node(a),
        s.reaches(keep, a, b),
    ensures
        s.has_node(b),
{
    let k = choose|k: nat| s.reaches_in(keep, a, b, k);
    if k > 0 {
        let m = choose|m: int|
            s.reaches_in(keep, a, m, (k - 1) as nat) && #[trigger] s.linked(keep, m, b);
        let e = choose|e: int| s.has_edge(e) && #[trigger] keep[e] && s.edges[e] == (m, b);
        assert(s.edges[e].1 == b);
    }
}

/// The end of an edge on the side that `incoming` names.
pub open spec fn end_of(edges: Seq<(int, int)>, e: int, incoming: bool) -> int {
    if incoming {
        edges[e].1
    } else {
        edges[e].0
    }
}

/// The list of the edges at a node holds exactly the edges that end there,
/// each once, the newer before the older.
pub proof fn lemma_incident(edges: Seq<(int, int)>, n: int, incoming: bool)
    ensures
        forall|e: int|
            #[trigger] incident(edges, n, incoming).contains(e) <==> 0 <= e < edges.len()
                && end_of(edges, e, incoming) == n,
        forall|i: int, j: int|
            0 <= i < j < incident(edges, n, incoming).len() ==> #[trigger] incident(
                edges,
                n,
                incoming,
            )[i] > #[trigger] incident(edges, n, incoming)[j],
        incident(edges, n, incoming).no_duplicates(),
        incident(edges, n, incoming).len() <= edges.len(),
    decreases edges.len(),
{
    let list = incident(edges, n, incoming);
    if edges.len() > 0 {
        let shorter = edges.drop_last();
        let rest = incident(shorter, n, incoming);
        lemma_incident(shorter, n, incoming);
        let last = edges.len() - 1;
        let hit = end_of(edges, last, incoming) == n;
        assert(list == if hit {
            seq![last] + rest
        } else {
            rest
        });
        assert forall|e: int| #[trigger] list.contains(e) <==> 0 <= e < edges.len() && end_of(
            edges,
            e,
            incoming,
        ) == n by {
            if 0 <= e < last {
                assert(shorter[e] == edges[e]);
            }
            assert(rest.contains(e) <==> 0 <= e < last && end_of(shorter, e, incoming) == n);
            if hit {
                assert(list[0] == last);
                if rest.contains(e) {
                    let i = choose|i: int| 0 <= i < rest.len() && rest[i] == e;
                    assert(list[i + 1] == e);
                }
                if list.contains(e) {
                    let i = choose|i: int| 0 <= i < list.len() && list[i] == e;
                    if i > 0 {
                        assert(rest[i - 1] == e);
                    }
                }
            }
        }
        if hit {
            assert forall|i: int, j: int| 0 <= i < j < list.len() implies #[trigger] list[i]
                > #[trigger] list[j] by {
                assert(list[j] == rest[j - 1]);
                assert(rest.contains(rest[j - 1]));
                if i > 0 {
                    assert(list[i] == rest[i - 1]);
                }
            }
        }
    }
}

/// `Graph::new`: a graph without nodes or edges.
#[verifier::external_body]
fn links_new() -> (g: Links)
    ensures
        links_nodes(g) == 0,
        links_edges(g) == Seq::<(int, int)>::empty(),
        links_newest_first(g),
{
    petgraph::graph::Graph::new()
}

/// `Graph::add_node`: appends a node, whose number is the number of nodes
/// before the call, and leaves the edges as they are. It panics at the
/// largest index, which `requires` leaves out.
#[verifier::external_body]
fn links_add_node(g: &mut Links) -> (n: usize)
    requires
        links_nodes(*old(g)) < MAX_ITEMS,
    ensures
        n == links_nodes(*old(g)),
        links_nodes(*final(g)) == links_nodes(*old(g)) + 1,
        links_edges(*final(g)) == links_edges(*old(g)),
        links_newest_first(*old(g)) ==> links_newest_first(*final(g)),
{
    g.add_node(()).index()
}

/// `Graph::add_edge`: appends an edge from `a` to `b`, whose number is the
/// number of edges before the call, and puts it at the head of the edge
/// lists of both nodes. It panics on a node that does not exist and at the
/// largest index, which `requires` leaves out.
#[verifier::external_body]
fn links_add_edge(g: &mut Links, a: usize, b: usize) -> (e: usize)
    requires
        a < links_nodes(*old(g)),
        b < links_nodes(*old(g)),
        links_nodes(*old(g)) <= MAX_ITEMS,
        links_edges(*old(g)).len() < MAX_ITEMS,
    ensures
        e == links_edges(*old(g)).len(),
        links_nodes(*final(g)) == links_nodes(*old(g)),
        links_edges(*final(g)) == links_edges(*old(g)).push((a as int, b as int)),
        links_newest_first(*old(g)) ==> links_newest_first(*final(g)),
{
    g.add_edge(NodeIndex::new(a), NodeIndex::new(b), ()).index()
}

/// `Graph::edge_endpoints`: the source and the target of edge `e`, or
/// nothing where the graph has no such edge.
#[verifier::external_body]
fn links_endpoints(g: &Links, e: usize) -> (ends: Option<(usize, usize)>)
    requires
        e <= MAX_ITEMS,
    ensures
        match ends {
            Some(p) => e < links_edges(*g).len() && links_edges(*g)[e as int] == (
                p.0 as int,
                p.1 as int,
            ),
            None => e >= links_edges(*g).len(),
        },
{
    g.edge_endpoints(EdgeIndex::new(e)).map(|(a, b)| (a.index(), b.index()))
}

/// `Graph::edges_directed`: the numbers of the edges that leave `n` or,
/// with `incoming`, that enter it, in the order of the node's edge list.
#[verifier::external_body]
fn links_incident(g: &Links, n: usize, incoming: bool) -> (list: Vec<usize>)
    requires
        n < links_nodes(*g),
        links_nodes(*g) <= MAX_ITEMS,
        links_newest_first(*g),
    ensures
        ids(list@) == incident(links_edges(*g), n as int, incoming),
{
    let direction = if incoming {
        petgraph::Direction::Incoming
    } else {
        petgraph::Direction::Outgoing
    };
    g.edges_directed(NodeIndex::new(n), direction).map(|e| e.id().index()).collect()
}

/// `Graph::first_edge` with `Incoming`: the head of the list of the edges
/// that enter `n`.
#[verifier::external_body]
fn links_first_incoming(g: &Links, n: usize) -> (first: Option<usize>)
    requires
        n < links_nodes(*g),
        links_nodes(*g) <= MAX_ITEMS,
        links_newest_first(*g),
    ensures
        match first {
            Some(e) => incident(links_edges(*g), n as int, true).len() > 0 && e == incident(
                links_edges(*g),
                n as int,
                true,
            )[0],
            None => incident(links_edges(*g), n as int, true).len() == 0,
        },
{
    g.first_edge(NodeIndex::new(n), petgraph::Direction::Incoming).map(|e| e.index())
}

/// `Graph::next_edge` with `Incoming`: the edge that follows `e` in the list
/// of the edges that enter the target of `e`, which is the newest older edge
/// with that target.
#[verifier::external_body]
fn links_next_incoming(g: &Links, e: usize) -> (next: Option<usize>)
    requires
        e < links_edges(*g).len(),
        links_edges(*g).len() <= MAX_ITEMS,
        links_newest_first(*g),
    ensures
        match next {
            Some(f) => f < e && links_edges(*g)[f as int].1 == links_edges(*g)[e as int].1
                && forall|x: int| f < x < e ==> (#[trigger] links_edges(*g)[x]).1 != links_edges(
                *g,
            )[e as int].1,
            None => forall|x: int| 0 <= x < e ==> (#[trigger] links_edges(*g)[x]).1 != links_edges(
                *g,
            )[e as int].1,
        },
{
    g.next_edge(EdgeIndex::new(e), petgraph::Direction::Incoming).map(|f| f.index())
}

/// `Dfs` over `EdgeFiltered`: the nodes in the order in which a depth-first
/// search from `start` first meets them, following only the edges marked in
/// `keep`. It visits each node that `start` reaches once, and no other.
#[verifier::external_body]
fn links_dfs(g: &Links, keep: &Vec<bool>, start: usize) -> (order: Vec<usize>)
    requires
        start < links_nodes(*g),
        links_nodes(*g) <= MAX_ITEMS,
        keep@.len() == links_edges(*g).len(),
        links_newest_first(*g),
    ensures
        ids(order@) == dfs_order(links_nodes(*g), links_edges(*g), keep@, start as int),
        order@.no_duplicates(),
        forall|n: int|
            ids(order@).contains(n) <==> (Shape {
                nodes: links_nodes(*g),
                edges: links_edges(*g),
            }).reaches(keep@, start as int, n),
{
    let kept = EdgeFiltered::from_fn(g, |e: petgraph::graph::EdgeReference<()>| keep[e.id().index()]);
    Dfs::new(&kept, NodeIndex::new(start)).iter(&kept).map(|n| n.index()).collect()
}

/// `DfsPostOrder` over `EdgeFiltered`: the nodes in the order in which a
/// depth-first search from `start` finishes them, following only the edges
/// marked in `keep`. It visits each node that `start` reaches once, and no
/// other.
#[verifier::external_body]
fn links_dfs_post_order(g: &Links, keep: &Vec<bool>, start: usize) -> (order: Vec<usize>)
    requires
        start < links_nodes(*g),
        links_nodes(*g) <= MAX_ITEMS,
        keep@.len() == links_edges(*g).len(),
        links_newest_first(*g),
    ensures
        ids(order@) == dfs_post_order(links_nodes(*g), links_edges(*g), keep@, start as int),
        order@.no_duplicates(),
        forall|n: int|
            ids(order@).contains(n) <==> (Shape {
                nodes: links_nodes(*g),
                edges: links_edges(*g),
            }).reaches(keep@, start as int, n),
{
    let kept = EdgeFiltered::from_fn(g, |e: petgraph::graph::EdgeReference<()>| keep[e.id().index()]);
    DfsPostOrder::new(&kept, NodeIndex::new(start)).iter(&kept).map(|n| n.index()).collect()
}


/// A directed multigraph with a payload of type `N` at each node and a label
/// of type `E` on each edge.
pub struct Multigraph<N, E> {
    links: Links,
    nodes: Vec<N>,
    labels: Vec<E>,
}

impl<N, E> Multigraph<N, E> {
    /// The shape of the graph.
    pub closed spec fn shape(&self) -> Shape {
        Shape { nodes: links_nodes(self.links), edges: links_edges(self.links) }
    }

    /// The payloads of the nodes, by number.
    pub closed spec fn nodes(&self) -> Seq<N> {
        self.nodes@
    }

    /// The labels of the edges, by number.
    pub closed spec fn labels(&self) -> Seq<E> {
        self.labels@
    }

    /// Whether the edge lists of the nodes are in the order of insertion.
    pub closed spec fn ordered(&self) -> bool {
        links_newest_first(self.links)
    }

    /// The graph's invariant: each edge links two of its nodes, each node
    /// has a payload and each edge a label, and the numbers stay in range.
    pub open spec fn wf(&self) -> bool {
        &&& self.ordered()
        &&& self.shape().wf()
        &&& self.shape().nodes <= MAX_ITEMS
        &&& self.shape().edges.len() <= MAX_ITEMS
        &&& self.nodes().len() == self.shape().nodes
        &&& self.labels().len() == self.shape().edges.len()
    }

    /// The source of edge `e`.
    pub open spec fn source(&self, e: int) -> int {
        self.shape().edges[e].0
    }

    /// The target of edge `e`.
    pub open spec fn target(&self, e: int) -> int {
        self.shape().edges[e].1
    }

    /// The graph without nodes or edges.
    pub fn new() -> (g: Self)
        ensures
            g.wf(),
            g.shape().nodes == 0,
            g.shape().edges == Seq::<(int, int)>::empty(),
            g.nodes() == Seq::<N>::empty(),
            g.labels() == Seq::<E>::empty(),
    {
        Multigraph { links: links_new(), nodes: Vec::new(), labels: Vec::new() }
    }

    /// The number of nodes.
    pub fn node_count(&self) -> (n: usize)
        requires
            self.wf(),
        ensures
            n == self.shape().nodes,
            n == self.nodes().len(),
            n <= MAX_ITEMS,
    {
        self.nodes.len()
    }

    /// The number of edges.
    pub fn edge_count(&self) -> (n: usize)
        requires
            self.wf(),
        ensures
            n == self.shape().edges.len(),
            n == self.labels().len(),
            n <= MAX_ITEMS,
    {
        self.labels.len()
    }

    /// Adds a node with the given payload and returns its number.
    pub fn add_node(&mut self, weight: N) -> (n: NodeId)
        requires
            old(self).wf(),
            old(self).shape().nodes < MAX_ITEMS,
        ensures
            final(self).wf(),
            n == old(self).shape().nodes,
            final(self).shape().nodes == old(self).shape().nodes + 1,
            final(self).shape().edges == old(self).shape().edges,
            final(self).nodes() == old(self).nodes().push(weight),
            final(self).labels() == old(self).labels(),
    {
        self.nodes.push(weight);
        links_add_node(&mut self.links)
    }

    /// Adds an edge from `a` to `b` with the given label and returns its
    /// number.
    pub fn add_edge(&mut self, a: NodeId, b: NodeId, label: E) -> (e: EdgeId)
        requires
            old(self).wf(),
            a < old(self).shape().nodes,
            b < old(self).shape().nodes,
            old(self).shape().edges.len() < MAX_ITEMS,
        ensures
            final(self).wf(),
            e == old(self).shape().edges.len(),
            final(self).shape().nodes == old(self).shape().nodes,
            final(self).shape().edges == old(self).shape().edges.push((a as int, b as int)),
            final(self).nodes() == old(self).nodes(),
            final(self).labels() == old(self).labels().push(label),
    {
        self.labels.push(label);
        links_add_edge(&mut self.links, a, b)
    }

    /// The payload of node `n`.
    pub fn node_weight(&self, n: NodeId) -> (weight: &N)
        requires
            self.wf(),
            n < self.shape().nodes,
        ensures
            *weight == self.nodes()[n as int],
    {
        &self.nodes[n]
    }

    /// Replaces the payload of node `n`.
    pub fn set_node_weight(&mut self, n: NodeId, weight: N)
        requires
            old(self).wf(),
            n < old(self).shape().nodes,
        ensures
            final(self).wf(),
            final(self).shape() == old(self).shape(),
            final(self).nodes() == old(self).nodes().update(n as int, weight),
            final(self).labels() == old(self).labels(),
    {
        self.nodes.set(n, weight);
    }

    /// The label of edge `e`.
    pub fn edge_weight(&self, e: EdgeId) -> (label: &E)
        requires
            self.wf(),
            e < self.shape().edges.len(),
        ensures
            *label == self.labels()[e as int],
    {
        &self.labels[e]
    }

    /// The source and the target of edge `e`, or nothing where the graph
    /// has no such edge.
    pub fn edge_endpoints(&self, e: EdgeId) -> (ends: Option<(NodeId, NodeId)>)
        requires
            self.wf(),
        ensures
            match ends {
                Some(p) => self.shape().has_edge(e as int) && p.0 == self.source(e as int) && p.1
                    == self.target(e as int) && p.0 < self.shape().nodes && p.1
                    < self.shape().nodes,
                None => !self.shape().has_edge(e as int),
            },
    {
        if e > MAX_ITEMS {
            None
        } else {
            links_endpoints(&self.links, e)
        }
    }

    /// The edges that leave `n`, newest first.
    pub fn outgoing(&self, n: NodeId) -> (list: Vec<EdgeId>)
        requires
            self.wf(),
            n < self.shape().nodes,
        ensures
            ids(list@) == self.shape().outgoing(n as int),
            list@.no_duplicates(),
            forall|i: int|
                0 <= i < list@.len() ==> self.shape().has_edge(#[trigger] list@[i] as int)
                    && self.source(list@[i] as int) == n,
            forall|e: int|
                self.shape().has_edge(e) && #[trigger] self.source(e) == n ==> list@.contains(
                    e as usize,
                ),
            forall|i: int, j: int| 0 <= i < j < list@.len() ==> list@[i] > list@[j],
    {
        let list = links_incident(&self.links, n, false);
        proof {
            lemma_listed(self.shape().edges, n as int, false, list@);
            assert forall|e: int|
                self.shape().has_edge(e) && #[trigger] self.source(e) == n implies list@.contains(
                e as usize,
            ) by {
                assert(end_of(self.shape().edges, e, false) == n);
            }
        }
        list
    }

    /// The edges that enter `n`, newest first.
    pub fn incoming(&self, n: NodeId) -> (list: Vec<EdgeId>)
        requires
            self.wf(),
            n < self.shape().nodes,
        ensures
            ids(list@) == self.shape().incoming(n as int),
            list@.no_duplicates(),
            forall|i: int|
                0 <= i < list@.len() ==> self.shape().has_edge(#[trigger] list@[i] as int)
                    && self.target(list@[i] as int) == n,
            forall|e: int|
                self.shape().has_edge(e) && #[trigger] self.target(e) == n ==> list@.contains(
                    e as usize,
                ),
            forall|i: int, j: int| 0 <= i < j < list@.len() ==> list@[i] > list@[j],
    {
        let list = links_incident(&self.links, n, true);
        proof {
            lemma_listed(self.shape().edges, n as int, true, list@);
            assert forall|e: int|
                self.shape().has_edge(e) && #[trigger] self.target(e) == n implies list@.contains(
                e as usize,
            ) by {
                assert(end_of(self.shape().edges, e, true) == n);
            }
        }
        list
    }

    /// The newest edge that enters `n`, if any does.
    pub fn first_incoming(&self, n: NodeId) -> (first: Option<EdgeId>)
        requires
            self.wf(),
            n < self.shape().nodes,
        ensures
            match first {
                Some(e) => self.shape().incoming(n as int).len() > 0 && e
                    == self.shape().incoming(n as int)[0] && self.shape().has_edge(e as int)
                    && self.target(e as int) == n && forall|x: int|
                    e < x < self.shape().edges.len() ==> #[trigger] self.target(x) != n,
                None => self.shape().incoming(n as int).len() == 0 && forall|x: int|
                    0 <= x < self.shape().edges.len() ==> #[trigger] self.target(x) != n,
            },
    {
        let first = links_first_incoming(&self.links, n);
        proof {
            let list = self.shape().incoming(n as int);
            lemma_incident(self.shape().edges, n as int, true);
            if first.is_some() {
                assert(list.contains(list[0]));
            }
            assert forall|x: int|
                0 <= x < self.shape().edges.len() && #[trigger] self.target(x) == n implies first
                is Some && x <= first->0 by {
                assert(end_of(self.shape().edges, x, true) == n);
                assert(list.contains(x));
                let i = choose|i: int| 0 <= i < list.len() && list[i] == x;
                if i > 0 {
                    assert(list[0] > list[i]);
                }
            }
        }
        first
    }

    /// The newest edge older than `e` that enters the same node as `e`, if
    /// there is one.
    pub fn next_incoming(&self, e: EdgeId) -> (next: Option<EdgeId>)
        requires
            self.wf(),
            e < self.shape().edges.len(),
        ensures
            match next {
                Some(f) => f < e && self.target(f as int) == self.target(e as int) && forall|
                    x: int,
                |
                    f < x < e ==> #[trigger] self.target(x) != self.target(e as int),
                None => forall|x: int|
                    0 <= x < e ==> #[trigger] self.target(x) != self.target(e as int),
            },
    {
        links_next_incoming(&self.links, e)
    }

    /// The nodes that `start` reaches over the edges marked in `keep`, each
    /// once, in the order of a depth-first search.
    pub fn dfs(&self, keep: &Vec<bool>, start: NodeId) -> (order: Vec<NodeId>)
        requires
            self.wf(),
            start < self.shape().nodes,
            keep@.len() == self.shape().edges.len(),
        ensures
            ids(order@) == dfs_order(
                self.shape().nodes,
                self.shape().edges,
                keep@,
                start as int,
            ),
            order@.no_duplicates(),
            forall|i: int| 0 <= i < order@.len() ==> (#[trigger] order@[i]) < self.shape().nodes,
            forall|i: int|
                0 <= i < order@.len() ==> self.shape().reaches(
                    keep@,
                    start as int,
                    #[trigger] order@[i] as int,
                ),
            forall|n: int|
                #[trigger] self.shape().reaches(keep@, start as int, n) ==> order@.contains(
                    n as usize,
                ),
    {
        let order = links_dfs(&self.links, keep, start);
        proof {
            lemma_visited(self.shape(), keep@, start as int, order@);
        }
        order
    }

    /// The nodes that `start` reaches over the edges marked in `keep`, each
    /// once, in the order in which a depth-first search finishes them.
    pub fn dfs_post_order(&self, keep: &Vec<bool>, start: NodeId) -> (order: Vec<NodeId>)
        requires
            self.wf(),
            start < self.shape().nodes,
            keep@.len() == self.shape().edges.len(),
        ensures
            ids(order@) == dfs_post_order(
                self.shape().nodes,
                self.shape().edges,
                keep@,
                start as int,
            ),
            order@.no_duplicates(),
            forall|i: int| 0 <= i < order@.len() ==> (#[trigger] order@[i]) < self.shape().nodes,
            forall|i: int|
                0 <= i < order@.len() ==> self.shape().reaches(
                    keep@,
                    start as int,
                    #[trigger] order@[i] as int,
                ),
            forall|n: int|
                #[trigger] self.shape().reaches(keep@, start as int, n) ==> order@.contains(
                    n as usize,
                ),
    {
        let order = links_dfs_post_order(&self.links, keep, start);
        proof {
            lemma_visited(self.shape(), keep@, start as int, order@);
        }
        order
    }

    /// The mark that keeps every edge.
    pub fn every_edge(&self) -> (keep: Vec<bool>)
        requires
            self.wf(),
        ensures
            keep@ == self.shape().all(),
    {
        let mut keep: Vec<bool> = Vec::new();
        let n = self.labels.len();
        while keep.len() < n
            invariant
                keep@.len() <= n,
                forall|i: int| 0 <= i < keep@.len() ==> #[trigger] keep@[i],
            decreases n - keep@.len(),
        {
            keep.push(true);
        }
        assert(keep@ =~= self.shape().all());
        keep
    }
}

/// What the list of the edges at a node holds, said of a list of numbers.
proof fn lemma_listed(edges: Seq<(int, int)>, n: int, incoming: bool, list: Seq<usize>)
    requires
        ids(list) == incident(edges, n, incoming),
    ensures
        list.no_duplicates(),
        forall|i: int|
            0 <= i < list.len() ==> 0 <= (#[trigger] list[i]) < edges.len() && end_of(
                edges,
                list[i] as int,
                incoming,
            ) == n,
        forall|e: int|
            0 <= e < edges.len() && #[trigger] end_of(edges, e, incoming) == n ==> list.contains(
                e as usize,
            ),
        forall|i: int, j: int| 0 <= i < j < list.len() ==> list[i] > list[j],
{
    let spec_list = incident(edges, n, incoming);
    lemma_incident(edges, n, incoming);
    assert(list.len() == spec_list.len());
    assert forall|i: int| 0 <= i < list.len() implies 0 <= (#[trigger] list[i]) < edges.len()
        && end_of(edges, list[i] as int, incoming) == n by {
        assert(spec_list[i] == list[i] as int);
        assert(spec_list.contains(spec_list[i]));
    }
    assert forall|e: int|
        0 <= e < edges.len() && #[trigger] end_of(edges, e, incoming) == n implies list.contains(
        e as usize,
    ) by {
        assert(spec_list.contains(e));
        let i = choose|i: int| 0 <= i < spec_list.len() && spec_list[i] == e;
        assert(list[i] as int == spec_list[i]);
    }
    assert forall|i: int, j: int| 0 <= i < j < list.len() implies list[i] > list[j] by {
        assert(spec_list[i] == list[i] as int);
        assert(spec_list[j] == list[j] as int);
    }
}

/// What a search visits, said of a list of numbers.
proof fn lemma_visited(s: Shape, keep: Seq<bool>, start: int, order: Seq<usize>)
    requires
        s.wf(),
        s.has_node(start),
        forall|n: int| ids(order).contains(n) <==> s.reaches(keep, start, n),
    ensures
        forall|i: int| 0 <= i < order.len() ==> (#[trigger] order[i]) < s.nodes,
        forall|i: int| 0 <= i < order.len() ==> s.reaches(keep, start, #[trigger] order[i] as int),
        forall|n: int| #[trigger] s.reaches(keep, start, n) ==> order.contains(n as usize),
{
    assert forall|i: int| 0 <= i < order.len() implies (#[trigger] order[i]) < s.nodes
        && s.reaches(keep, start, order[i] as int) by {
        assert(ids(order)[i] == order[i] as int);
        assert(ids(order).contains(order[i] as int));
        lemma_reaches_node(s, keep, start, order[i] as int);
    }
    assert forall|n: int| #[trigger] s.reaches(keep, start, n) implies order.contains(
        n as usize,
    ) by {
        assert(ids(order).contains(n));
        let i = choose|i: int| 0 <= i < ids(order).len() && ids(order)[i] == n;
        assert(order[i] as int == n);
    }
}

} // verus!
