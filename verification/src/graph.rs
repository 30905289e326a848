//! The dataflow graph: node records owned by an arena, edge structure held in
//! a `petgraph` directed graph behind a small trusted boundary. All other code
//! refers to nodes only by their stable `usize` identifier.

use vstd::prelude::*;
use vstd::multiset::Multiset;

verus! {

#[verifier::external_type_specification]
#[verifier::external_body]
#[verifier::reject_recursive_types(N)]
#[verifier::reject_recursive_types(E)]
#[verifier::reject_recursive_types(Ty)]
#[verifier::reject_recursive_types(Ix)]
pub struct ExGraph<N, E, Ty, Ix>(petgraph::graph::Graph<N, E, Ty, Ix>);

#[verifier::external_type_specification]
#[verifier::external_body]
pub struct ExDirected(petgraph::Directed);

/// How many nodes the petgraph graph holds.
pub uninterp spec fn pg_node_count(g: petgraph::graph::DiGraph<(), ()>) -> nat;

/// The parent -> child edges the petgraph graph holds, with multiplicity.
pub uninterp spec fn pg_edges(g: petgraph::graph::DiGraph<(), ()>) -> Multiset<(usize, usize)>;

/// Relies on petgraph's `Graph::new`: a directed graph with no nodes and no edges.
#[verifier::external_body]
fn pg_new() -> (g: petgraph::graph::DiGraph<(), ()>)
    ensures
        pg_node_count(g) == 0,
        pg_edges(g) == Multiset::<(usize, usize)>::empty(),
{
    petgraph::graph::DiGraph::new()
}

/// Relies on petgraph's `Graph::add_node`: appends one node whose index is the
/// old node count. The bound keeps the `u32` index type below its reserved
/// sentinel, where `add_node` would panic.
#[verifier::external_body]
fn pg_add_node(g: &mut petgraph::graph::DiGraph<(), ()>) -> (r: usize)
    requires
        pg_node_count(*old(g)) < 0xFFFF_FFFF,
    ensures
        r as nat == pg_node_count(*old(g)),
        pg_node_count(*final(g)) == pg_node_count(*old(g)) + 1,
        pg_edges(*final(g)) == pg_edges(*old(g)),
{
    g.add_node(()).index()
}

/// Relies on petgraph's `Graph::edge_count`: how many edges the graph holds.
#[verifier::external_body]
fn pg_edge_count(g: &petgraph::graph::DiGraph<(), ()>) -> (r: usize)
    ensures
        r as nat == pg_edges(*g).len(),
{
    g.edge_count()
}

/// Relies on petgraph's `Graph::add_edge`: appends one `a -> b` edge. It
/// panics only on a missing endpoint or on edge-index exhaustion, which the
/// requires rules out.
#[verifier::external_body]
fn pg_add_edge(g: &mut petgraph::graph::DiGraph<(), ()>, a: usize, b: usize)
    requires
        (a as nat) < pg_node_count(*old(g)),
        (b as nat) < pg_node_count(*old(g)),
        pg_edges(*old(g)).len() < 0xFFFF_FFFF,
    ensures
        pg_node_count(*final(g)) == pg_node_count(*old(g)),
        pg_edges(*final(g)) == pg_edges(*old(g)).insert((a, b)),
{
    g.add_edge(
        petgraph::graph::NodeIndex::new(a),
        petgraph::graph::NodeIndex::new(b),
        (),
    );
}

/// Relies on petgraph's `Graph::contains_edge`: whether some `a -> b` edge
/// exists; out-of-range endpoints give `false`. The bounds keep the `u32`
/// node indices from truncating and aliasing a live node.
#[verifier::external_body]
fn pg_has_edge(g: &petgraph::graph::DiGraph<(), ()>, a: usize, b: usize) -> (r: bool)
    requires
        (a as int) < 0x1_0000_0000,
        (b as int) < 0x1_0000_0000,
    ensures
        r == (pg_edges(*g).count((a, b)) > 0),
{
    g.contains_edge(petgraph::graph::NodeIndex::new(a), petgraph::graph::NodeIndex::new(b))
}

/// Relies on petgraph's `Graph::find_edge` and `Graph::remove_edge`: removes
/// one `a -> b` edge if any exists; the result tells whether one did.
#[verifier::external_body]
fn pg_remove_edge(g: &mut petgraph::graph::DiGraph<(), ()>, a: usize, b: usize) -> (r: bool)
    requires
        (a as int) < 0x1_0000_0000,
        (b as int) < 0x1_0000_0000,
    ensures
        pg_node_count(*final(g)) == pg_node_count(*old(g)),
        r == (pg_edges(*old(g)).count((a, b)) > 0),
        r ==> pg_edges(*final(g)) == pg_edges(*old(g)).remove((a, b)),
        !r ==> pg_edges(*final(g)) == pg_edges(*old(g)),
{
    match g.find_edge(petgraph::graph::NodeIndex::new(a), petgraph::graph::NodeIndex::new(b)) {
        Some(e) => {
            g.remove_edge(e);
            true
        }
        None => false,
    }
}

/// Relies on petgraph's `Graph::neighbors_directed` with `Outgoing`: one entry
/// per outgoing `a -> x` edge. The bound keeps the `u32` node index from
/// truncating.
#[verifier::external_body]
fn pg_successors(g: &petgraph::graph::DiGraph<(), ()>, a: usize) -> (r: Vec<usize>)
    requires
        (a as int) < 0x1_0000_0000,
    ensures
        forall|x: usize| r@.contains(x) <==> pg_edges(*g).count((a, x)) > 0,
        r@.map_values(|x: usize| (a, x)).to_multiset() == pg_edges(*g).filter(
            |e: (usize, usize)| e.0 == a,
        ),
{
    g.neighbors_directed(petgraph::graph::NodeIndex::new(a), petgraph::Direction::Outgoing)
        .map(|n| n.index())
        .collect()
}

/// Relies on petgraph's `Graph::neighbors_directed` with `Incoming`: one entry
/// per incoming `x -> a` edge. The bound keeps the `u32` node index from
/// truncating.
#[verifier::external_body]
fn pg_predecessors(g: &petgraph::graph::DiGraph<(), ()>, a: usize) -> (r: Vec<usize>)
    requires
        (a as int) < 0x1_0000_0000,
    ensures
        forall|x: usize| r@.contains(x) <==> pg_edges(*g).count((x, a)) > 0,
        r@.map_values(|x: usize| (x, a)).to_multiset() == pg_edges(*g).filter(
            |e: (usize, usize)| e.1 == a,
        ),
{
    g.neighbors_directed(petgraph::graph::NodeIndex::new(a), petgraph::Direction::Incoming)
        .map(|n| n.index())
        .collect()
}

/// A plain dataflow value: the integers and text that column defaults and
/// migration context entries carry.
pub enum DfValue {
    Int(i64),
    Text(String),
}

/// An operator's private configuration. The remap handed to its commit hook
/// is retained so that callers can observe how its global parent identities
/// were resolved to domain-local addresses.
pub struct Operator {
    pub committed_remap: Option<Vec<(usize, usize)>>,
}

pub enum NodeKind {
    /// The distinguished root ancestor of all base tables.
    Source,
    /// A base table; `defaults` and `removed` run parallel to the node's
    /// field list. A removed column stays in place so that the positions of
    /// the others never shift.
    Base { defaults: Vec<i64>, removed: Vec<bool> },
    /// An ordinary operator node.
    Internal { op: Operator },
    /// Domain-boundary entry node.
    Ingress,
    /// Domain-boundary exit node.
    Egress,
    /// Fan-out node inserted by sharding.
    Sharder { shards: usize },
    /// A maintained, queryable view over `for_node`'s output.
    Reader { for_node: usize, key: Vec<usize>, reader_name: Option<String> },
}

/// How many of a base's columns are still externally observable.
pub open spec fn live_cols(removed: Seq<bool>) -> nat
    decreases removed.len(),
{
    if removed.len() == 0 {
        0
    } else {
        live_cols(removed.drop_last()) + if removed.last() {
            0nat
        } else {
            1nat
        }
    }
}

pub struct Node {
    pub name: String,
    pub fields: Vec<String>,
    /// Execution domain, assigned before routing runs.
    pub domain: Option<usize>,
    /// Domain-local slot, assigned exactly once at commit.
    pub local_addr: Option<usize>,
    pub dropped: bool,
    /// Sharding descriptor: how many parallel shards, 1 when unsharded.
    pub shards: usize,
    pub kind: NodeKind,
}

impl Node {
    /// Parallel column metadata stays parallel to the field list.
    pub open spec fn wf(self) -> bool {
        match self.kind {
            NodeKind::Base { defaults, removed } => {
                defaults@.len() == self.fields@.len() && removed@.len() == self.fields@.len()
            }
            _ => true,
        }
    }

    pub open spec fn is_base(self) -> bool {
        self.kind is Base
    }

    pub open spec fn is_internal(self) -> bool {
        self.kind is Internal
    }

    pub open spec fn is_ingress(self) -> bool {
        self.kind is Ingress
    }

    pub open spec fn is_egress(self) -> bool {
        self.kind is Egress
    }

    pub open spec fn is_reader(self) -> bool {
        self.kind is Reader
    }

    pub open spec fn is_source(self) -> bool {
        self.kind is Source
    }

    /// How many columns of a base are externally observable: those never
    /// dropped. Zero for non-base nodes.
    pub open spec fn observed_columns(self) -> nat {
        match self.kind {
            NodeKind::Base { defaults: _, removed } => live_cols(removed@),
            _ => 0,
        }
    }

    pub fn exec_is_internal(&self) -> (r: bool)
        ensures
            r == self.is_internal(),
    {
        matches!(self.kind, NodeKind::Internal { .. })
    }

    pub fn exec_is_egress(&self) -> (r: bool)
        ensures
            r == self.is_egress(),
    {
        matches!(self.kind, NodeKind::Egress)
    }
}

/// The running dataflow graph: an arena of node records plus the petgraph
/// edge structure. The two agree on the node count, and every edge endpoint
/// is a live arena index.
pub struct Flow {
    pub g: petgraph::graph::DiGraph<(), ()>,
    pub nodes: Vec<Node>,
}

impl Flow {
    pub open spec fn node_count(self) -> nat {
        self.nodes@.len()
    }

    pub open spec fn edges(self) -> Multiset<(usize, usize)> {
        pg_edges(self.g)
    }

    pub open spec fn has_edge_spec(self, a: usize, b: usize) -> bool {
        self.edges().count((a, b)) > 0
    }

    pub open spec fn wf(self) -> bool {
        &&& self.nodes@.len() == pg_node_count(self.g)
        &&& self.nodes@.len() <= 0xFFFF_FFFF
        &&& self.edges().len() <= 0xFFFF_FFFF
        &&& forall|i: int| 0 <= i < self.nodes@.len() ==> (#[trigger] self.nodes@[i]).wf()
        &&& forall|e: (usize, usize)|
            self.edges().count(e) > 0 ==> e.0 < self.nodes@.len() && e.1 < self.nodes@.len()
    }

    pub fn new() -> (r: Flow)
        ensures
            r.wf(),
            r.node_count() == 0,
            r.edges() == Multiset::<(usize, usize)>::empty(),
    {
        Flow { g: pg_new(), nodes: Vec::new() }
    }

    pub fn len(&self) -> (r: usize)
        ensures
            r as nat == self.node_count(),
    {
        self.nodes.len()
    }

    pub fn edge_count(&self) -> (r: usize)
        ensures
            r as nat == self.edges().len(),
    {
        pg_edge_count(&self.g)
    }

    /// Appends a node record; its identifier is the old node count.
    pub fn add_node(&mut self, n: Node) -> (r: usize)
        requires
            old(self).wf(),
            old(self).node_count() < 0xFFFF_FFFF,
            n.wf(),
        ensures
            final(self).wf(),
            r as nat == old(self).node_count(),
            final(self).nodes@ == old(self).nodes@.push(n),
            final(self).edges() == old(self).edges(),
    {
        let r = pg_add_node(&mut self.g);
        self.nodes.push(n);
        proof {
            assert forall|i: int| 0 <= i < self.nodes@.len() implies (
            #[trigger] self.nodes@[i]).wf() by {
                if i < old(self).nodes@.len() {
                    assert(old(self).nodes@[i].wf());
                }
            }
            assert forall|e: (usize, usize)| self.edges().count(e) > 0 implies e.0
                < self.nodes@.len() && e.1 < self.nodes@.len() by {
                assert(old(self).edges().count(e) > 0);
            }
        }
        r
    }

    pub fn add_edge(&mut self, a: usize, b: usize)
        requires
            old(self).wf(),
            (a as nat) < old(self).node_count(),
            (b as nat) < old(self).node_count(),
            old(self).edges().len() < 0xFFFF_FFFF,
        ensures
            final(self).wf(),
            final(self).nodes@ == old(self).nodes@,
            final(self).edges() == old(self).edges().insert((a, b)),
    {
        pg_add_edge(&mut self.g, a, b);
        proof {
            assert forall|e: (usize, usize)| final(self).edges().count(e) > 0 implies e.0
                < self.nodes@.len() && e.1 < self.nodes@.len() by {
                if e != (a, b) {
                    assert(old(self).edges().count(e) > 0);
                }
            }
        }
    }

    pub fn has_edge(&self, a: usize, b: usize) -> (r: bool)
        requires
            (a as int) < 0x1_0000_0000,
            (b as int) < 0x1_0000_0000,
        ensures
            r == self.has_edge_spec(a, b),
    {
        pg_has_edge(&self.g, a, b)
    }

    /// Removes one `a -> b` edge if any exists.
    pub fn remove_edge(&mut self, a: usize, b: usize) -> (r: bool)
        requires
            old(self).wf(),
            (a as int) < 0x1_0000_0000,
            (b as int) < 0x1_0000_0000,
        ensures
            final(self).wf(),
            final(self).nodes@ == old(self).nodes@,
            r == (old(self).edges().count((a, b)) > 0),
            r ==> final(self).edges() == old(self).edges().remove((a, b)),
            !r ==> final(self).edges() == old(self).edges(),
    {
        let r = pg_remove_edge(&mut self.g, a, b);
        proof {
            assert forall|e: (usize, usize)| final(self).edges().count(e) > 0 implies e.0
                < self.nodes@.len() && e.1 < self.nodes@.len() by {
                assert(old(self).edges().count(e) > 0);
            }
        }
        r
    }

    /// All children of `a`, one entry per outgoing edge.
    pub fn successors(&self, a: usize) -> (r: Vec<usize>)
        requires
            self.wf(),
            (a as int) < 0x1_0000_0000,
        ensures
            forall|x: usize| r@.contains(x) <==> self.edges().count((a, x)) > 0,
            forall|i: int| 0 <= i < r@.len() ==> (#[trigger] r@[i]) < self.node_count(),
    {
        let r = pg_successors(&self.g, a);
        proof {
            assert forall|i: int| 0 <= i < r@.len() implies (#[trigger] r@[i])
                < self.node_count() by {
                let x = r@[i];
                assert(r@.contains(x));
                assert(self.edges().count((a, x)) > 0);
            }
        }
        r
    }

    /// All parents of `a`, one entry per incoming edge.
    pub fn predecessors(&self, a: usize) -> (r: Vec<usize>)
        requires
            self.wf(),
            (a as int) < 0x1_0000_0000,
        ensures
            forall|x: usize| r@.contains(x) <==> self.edges().count((x, a)) > 0,
            forall|i: int| 0 <= i < r@.len() ==> (#[trigger] r@[i]) < self.node_count(),
    {
        let r = pg_predecessors(&self.g, a);
        proof {
            assert forall|i: int| 0 <= i < r@.len() implies (#[trigger] r@[i])
                < self.node_count() by {
                let x = r@[i];
                assert(r@.contains(x));
                assert(self.edges().count((x, a)) > 0);
            }
        }
        r
    }
}

} // verus!
