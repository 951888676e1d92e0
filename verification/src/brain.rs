//! Brain graphs: building a directed node/edge arena from a genome and
//! pruning it to a minimal valid form.
//!
//! Nodes are created in genome order, one per non-connection gene, and are
//! addressed by their creation index. Pruning never renumbers nodes: removed
//! nodes are marked dead in an `alive` mask and their incident edges are
//! dropped, so surviving indices stay stable.
//!
//! Pruning runs in three passes: edges into senses and out of actions are
//! dropped; structurally dead nodes (senses and internals without a real
//! outgoing edge, actions without an incoming edge) are removed in batches
//! to a fixed point; and finally every node without a directed path to a
//! surviving action node is removed, so no disconnected subgraph outlives
//! construction.

use vstd::prelude::*;

use crate::gene::{ActionType, Gene, GeneParse, SenseType};
use crate::gene::spec_parse;
use crate::rat::Rat;

verus! {

/// One node of a brain graph.
#[derive(Clone, Copy, PartialEq, Eq, Structural, Debug)]
pub enum Node {
    Sense(SenseType),
    Action(ActionType),
    Internal(Rat),
}

/// One directed edge, carrying an inversion flag.
#[derive(Clone, Copy, PartialEq, Eq, Structural, Debug)]
pub struct Edge {
    pub from: usize,
    pub to: usize,
    pub inverted: bool,
}

/// Error for a genome that encodes connections but no nodes to wire.
#[derive(Clone, Copy, PartialEq, Eq, Structural, Debug)]
pub struct InvalidGenome;

/// The mathematical state of a brain graph: the node arena, the liveness
/// mask, and the edge list.
pub struct BrainState {
    pub nodes: Seq<Node>,
    pub alive: Seq<bool>,
    pub edges: Seq<Edge>,
}

/// The nodes decoded from a gene sequence, in genome order.
pub open spec fn spec_nodes_of(genes: Seq<Gene>) -> Seq<Node>
    decreases genes.len(),
{
    if genes.len() == 0 {
        Seq::empty()
    } else {
        spec_nodes_of(genes.drop_last()) + match spec_parse(genes.last().0) {
            GeneParse::Sense(v) => seq![Node::Sense(v)],
            GeneParse::Action(v) => seq![Node::Action(v)],
            GeneParse::Internal(b) => seq![Node::Internal(b)],
            GeneParse::Connection(..) => Seq::empty(),
        }
    }
}

/// The connection halves decoded from a gene sequence, in genome order:
/// each carries a 6-bit endpoint index and an inversion flag.
pub open spec fn spec_conns_of(genes: Seq<Gene>) -> Seq<(u8, bool)>
    decreases genes.len(),
{
    if genes.len() == 0 {
        Seq::empty()
    } else {
        spec_conns_of(genes.drop_last()) + match spec_parse(genes.last().0) {
            GeneParse::Connection(x, inv) => seq![(x, inv)],
            _ => Seq::empty(),
        }
    }
}

/// The edges wired from consecutive pairs of connection halves: the first of
/// a pair gives the source and the inversion flag, the second the target,
/// both taken modulo the node count. A trailing unpaired half is dropped.
pub open spec fn spec_wire(conns: Seq<(u8, bool)>, n: nat) -> Seq<Edge>
    decreases conns.len(),
{
    if conns.len() < 2 {
        Seq::empty()
    } else {
        seq![
            Edge {
                from: ((conns[0].0 as int) % (n as int)) as usize,
                to: ((conns[1].0 as int) % (n as int)) as usize,
                inverted: conns[0].1,
            },
        ] + spec_wire(conns.skip(2), n)
    }
}

/// Edges kept by a filter predicate, in order.
pub open spec fn spec_filter_edges(edges: Seq<Edge>, p: spec_fn(Edge) -> bool) -> Seq<Edge>
    decreases edges.len(),
{
    if edges.len() == 0 {
        Seq::empty()
    } else {
        spec_filter_edges(edges.drop_last(), p) + if p(edges.last()) {
            seq![edges.last()]
        } else {
            Seq::empty()
        }
    }
}

/// Whether an edge may stay after the edge-pruning pass: sense nodes take
/// no incoming edges and action nodes emit no outgoing edges.
pub open spec fn spec_keep_edge(nodes: Seq<Node>, e: Edge) -> bool {
    &&& !(e.to < nodes.len() && nodes[e.to as int] is Sense)
    &&& !(e.from < nodes.len() && nodes[e.from as int] is Action)
}

/// The edge-pruning pass.
pub open spec fn spec_prune_edges(nodes: Seq<Node>, edges: Seq<Edge>) -> Seq<Edge> {
    spec_filter_edges(edges, |e: Edge| spec_keep_edge(nodes, e))
}

/// Whether both endpoints of an edge are alive.
pub open spec fn spec_edge_alive(alive: Seq<bool>, e: Edge) -> bool {
    &&& e.from < alive.len() && alive[e.from as int]
    &&& e.to < alive.len() && alive[e.to as int]
}

/// Edges whose endpoints are both alive.
pub open spec fn spec_live_edges(alive: Seq<bool>, edges: Seq<Edge>) -> Seq<Edge> {
    spec_filter_edges(edges, |e: Edge| spec_edge_alive(alive, e))
}

/// Number of edges leaving node `i`.
pub open spec fn spec_out_degree(edges: Seq<Edge>, i: int) -> nat
    decreases edges.len(),
{
    if edges.len() == 0 {
        0
    } else {
        spec_out_degree(edges.drop_last(), i) + if edges.last().from == i {
            1nat
        } else {
            0nat
        }
    }
}

/// Number of edges entering node `i`.
pub open spec fn spec_in_degree(edges: Seq<Edge>, i: int) -> nat
    decreases edges.len(),
{
    if edges.len() == 0 {
        0
    } else {
        spec_in_degree(edges.drop_last(), i) + if edges.last().to == i {
            1nat
        } else {
            0nat
        }
    }
}

/// Whether every edge leaving node `i` is a self-loop.
pub open spec fn spec_all_out_self(edges: Seq<Edge>, i: int) -> bool {
    forall|j: int| 0 <= j < edges.len() && (#[trigger] edges[j]).from == i ==> edges[j].to == i
}

/// Number of `true` entries of a mask.
pub open spec fn spec_count_true(s: Seq<bool>) -> nat
    decreases s.len(),
{
    if s.len() == 0 {
        0
    } else {
        spec_count_true(s.drop_last()) + if s.last() {
            1nat
        } else {
            0nat
        }
    }
}

impl BrainState {
    /// Structural well-formedness: the mask covers the arena, every edge
    /// joins live in-range nodes, and every internal bias is a well-formed
    /// rational.
    pub open spec fn wf(self) -> bool {
        &&& self.alive.len() == self.nodes.len()
        &&& forall|j: int|
            0 <= j < self.edges.len() ==> spec_edge_alive(self.alive, #[trigger] self.edges[j])
        &&& forall|i: int|
            0 <= i < self.nodes.len() ==> ((#[trigger] self.nodes[i]) is Internal
                ==> self.nodes[i]->Internal_0.wf())
    }

    /// No edge enters a sense node or leaves an action node.
    pub open spec fn sense_action_clean(self) -> bool {
        forall|j: int|
            0 <= j < self.edges.len() ==> spec_keep_edge(self.nodes, #[trigger] self.edges[j])
    }

    /// Whether node `i` would be removed by the next node-pruning scan:
    /// a sense or internal node with no outgoing edge or a single outgoing
    /// self-loop, or an action node with no incoming edge.
    pub open spec fn removable(self, i: int) -> bool {
        &&& 0 <= i < self.nodes.len()
        &&& i < self.alive.len()
        &&& self.alive[i]
        &&& match self.nodes[i] {
            Node::Sense(_) | Node::Internal(_) => spec_out_degree(self.edges, i) == 0 || (
            spec_out_degree(self.edges, i) == 1 && spec_all_out_self(self.edges, i)),
            Node::Action(_) => spec_in_degree(self.edges, i) == 0,
        }
    }

    /// Whether any node would be removed by the next scan.
    pub open spec fn any_removable(self) -> bool {
        exists|i: int| self.removable(i)
    }

    /// A graph is pruned when a further scan removes nothing.
    pub open spec fn pruned(self) -> bool {
        !self.any_removable()
    }

    /// One batch scan-and-remove step of the node-pruning pass.
    pub open spec fn prune_step(self) -> BrainState {
        let alive = Seq::new(self.alive.len(), |i: int| self.alive[i] && !self.removable(i));
        BrainState { nodes: self.nodes, alive, edges: spec_live_edges(alive, self.edges) }
    }

    /// The node-pruning pass, iterated to its fixed point.
    pub open spec fn prune_fix(self) -> BrainState
        decreases spec_count_true(self.alive),
        via BrainState::prune_fix_decreases
    {
        if self.any_removable() {
            self.prune_step().prune_fix()
        } else {
            self
        }
    }

    #[via_fn]
    proof fn prune_fix_decreases(self) {
        if self.any_removable() {
            let w = choose|i: int| self.removable(i);
            lemma_count_true_lt(self.alive, self.prune_step().alive, w);
        }
    }

    /// Whether node `i` is alive and has a directed path of at most `k`
    /// edges, through live nodes, to a live action node.
    pub open spec fn reaches(self, i: int, k: nat) -> bool
        decreases k,
    {
        &&& 0 <= i < self.nodes.len()
        &&& i < self.alive.len()
        &&& self.alive[i]
        &&& (self.nodes[i] is Action || (k > 0 && exists|j: int|
            0 <= j < self.edges.len() && (#[trigger] self.edges[j]).from as int == i
                && self.reaches(self.edges[j].to as int, (k - 1) as nat)))
    }

    /// Whether node `i` is alive and some action node is reachable from
    /// it: node `i` is backward-reachable from an action.
    pub open spec fn reaches_action(self, i: int) -> bool {
        exists|k: nat| self.reaches(i, k)
    }

    /// The liveness mask after dropping every node from which no action
    /// node can be reached.
    pub open spec fn reach_mask(self) -> Seq<bool> {
        Seq::new(self.alive.len(), |i: int| self.alive[i] && self.reaches_action(i))
    }

    /// The backward-reachability pass: keeps exactly the nodes with a
    /// directed path to a live action node, and their edges.
    pub open spec fn prune_unreachable(self) -> BrainState {
        let alive = self.reach_mask();
        BrainState { nodes: self.nodes, alive, edges: spec_live_edges(alive, self.edges) }
    }
}

/// Pointwise implication between masks bounds their counts.
proof fn lemma_count_true_le(a: Seq<bool>, b: Seq<bool>)
    requires
        a.len() == b.len(),
        forall|i: int| 0 <= i < a.len() ==> ((#[trigger] b[i]) ==> a[i]),
    ensures
        spec_count_true(b) <= spec_count_true(a),
    decreases a.len(),
{
    if a.len() > 0 {
        assert(forall|i: int|
            0 <= i < a.len() - 1 ==> ((#[trigger] b.drop_last()[i]) ==> a.drop_last()[i]));
        lemma_count_true_le(a.drop_last(), b.drop_last());
    }
}

/// A mask that loses one `true` entry strictly shrinks its count.
proof fn lemma_count_true_lt(a: Seq<bool>, b: Seq<bool>, w: int)
    requires
        a.len() == b.len(),
        forall|i: int| 0 <= i < a.len() ==> ((#[trigger] b[i]) ==> a[i]),
        0 <= w < a.len(),
        a[w],
        !b[w],
    ensures
        spec_count_true(b) < spec_count_true(a),
    decreases a.len(),
{
    if w == a.len() - 1 {
        lemma_count_true_le(a.drop_last(), b.drop_last());
    } else {
        assert(forall|i: int|
            0 <= i < a.len() - 1 ==> ((#[trigger] b.drop_last()[i]) ==> a.drop_last()[i]));
        lemma_count_true_lt(a.drop_last(), b.drop_last(), w);
    }
}

/// Every element of a filtered edge list satisfies the filter.
proof fn lemma_filter_edges_sat(edges: Seq<Edge>, p: spec_fn(Edge) -> bool)
    ensures
        forall|j: int|
            0 <= j < spec_filter_edges(edges, p).len() ==> p(
                #[trigger] spec_filter_edges(edges, p)[j],
            ),
    decreases edges.len(),
{
    if edges.len() > 0 {
        lemma_filter_edges_sat(edges.drop_last(), p);
        let f0 = spec_filter_edges(edges.drop_last(), p);
        let f = spec_filter_edges(edges, p);
        assert forall|j: int| 0 <= j < f.len() implies p(f[j]) by {
            if j < f0.len() {
                assert(f[j] == f0[j]);
            } else {
                assert(p(edges.last()));
                assert(f[j] == edges.last());
            }
        }
    }
}

/// Filtering preserves any property all edges had.
proof fn lemma_filter_edges_all(edges: Seq<Edge>, p: spec_fn(Edge) -> bool, q: spec_fn(Edge) -> bool)
    requires
        forall|j: int| 0 <= j < edges.len() ==> q(#[trigger] edges[j]),
    ensures
        forall|j: int|
            0 <= j < spec_filter_edges(edges, p).len() ==> q(
                #[trigger] spec_filter_edges(edges, p)[j],
            ),
    decreases edges.len(),
{
    if edges.len() > 0 {
        assert(forall|j: int|
            0 <= j < edges.len() - 1 ==> q(#[trigger] edges.drop_last()[j]));
        lemma_filter_edges_all(edges.drop_last(), p, q);
        let f0 = spec_filter_edges(edges.drop_last(), p);
        let f = spec_filter_edges(edges, p);
        assert forall|j: int| 0 <= j < f.len() implies q(f[j]) by {
            if j < f0.len() {
                assert(f[j] == f0[j]);
            } else {
                assert(q(edges[edges.len() - 1]));
                assert(f[j] == edges.last());
            }
        }
    }
}

/// A filter that keeps every edge returns the list unchanged.
proof fn lemma_filter_edges_id(edges: Seq<Edge>, p: spec_fn(Edge) -> bool)
    requires
        forall|j: int| 0 <= j < edges.len() ==> p(#[trigger] edges[j]),
    ensures
        spec_filter_edges(edges, p) == edges,
    decreases edges.len(),
{
    if edges.len() == 0 {
        assert(spec_filter_edges(edges, p) =~= edges);
    } else {
        assert(forall|j: int|
            0 <= j < edges.len() - 1 ==> p(#[trigger] edges.drop_last()[j]));
        lemma_filter_edges_id(edges.drop_last(), p);
        assert(spec_filter_edges(edges, p) =~= edges);
    }
}

/// A count of `true` entries never exceeds the mask's length.
proof fn lemma_count_true_le_len(s: Seq<bool>)
    ensures
        spec_count_true(s) <= s.len(),
    decreases s.len(),
{
    if s.len() > 0 {
        lemma_count_true_le_len(s.drop_last());
    }
}

/// Every edge that satisfies the filter appears in the filtered list.
proof fn lemma_filter_edges_mem(edges: Seq<Edge>, p: spec_fn(Edge) -> bool, j: int)
    requires
        0 <= j < edges.len(),
        p(edges[j]),
    ensures
        exists|j2: int|
            0 <= j2 < spec_filter_edges(edges, p).len()
                && (#[trigger] spec_filter_edges(edges, p)[j2]) == edges[j],
    decreases edges.len(),
{
    let f0 = spec_filter_edges(edges.drop_last(), p);
    let f = spec_filter_edges(edges, p);
    if j == edges.len() - 1 {
        assert(f[f0.len() as int] == edges[j]);
    } else {
        assert(edges.drop_last()[j] == edges[j]);
        lemma_filter_edges_mem(edges.drop_last(), p, j);
        let j2 = choose|j2: int| 0 <= j2 < f0.len() && #[trigger] f0[j2] == edges[j];
        assert(f[j2] == f0[j2]);
    }
}

/// Filtering preserves a node's in-degree when it keeps every edge into
/// that node.
proof fn lemma_filter_in_degree(edges: Seq<Edge>, p: spec_fn(Edge) -> bool, i: int)
    requires
        forall|j: int| 0 <= j < edges.len() && (#[trigger] edges[j]).to as int == i ==> p(edges[j]),
    ensures
        spec_in_degree(spec_filter_edges(edges, p), i) == spec_in_degree(edges, i),
    decreases edges.len(),
{
    if edges.len() > 0 {
        assert(forall|j: int|
            0 <= j < edges.len() - 1 ==> (#[trigger] edges.drop_last()[j]) == edges[j]);
        lemma_filter_in_degree(edges.drop_last(), p, i);
        let f0 = spec_filter_edges(edges.drop_last(), p);
        let f = spec_filter_edges(edges, p);
        assert(edges[edges.len() - 1] == edges.last());
        if p(edges.last()) {
            assert(f.drop_last() =~= f0);
        } else {
            assert(edges.last().to as int != i);
            assert(f =~= f0);
        }
    }
}

/// A node has out-degree zero exactly when no edge leaves it.
proof fn lemma_out_degree_zero(edges: Seq<Edge>, i: int)
    ensures
        spec_out_degree(edges, i) == 0 <==> forall|j: int|
            0 <= j < edges.len() ==> (#[trigger] edges[j]).from != i,
    decreases edges.len(),
{
    if edges.len() > 0 {
        lemma_out_degree_zero(edges.drop_last(), i);
        assert(forall|j: int|
            0 <= j < edges.len() - 1 ==> (#[trigger] edges[j]) == edges.drop_last()[j]);
        assert(edges[edges.len() - 1] == edges.last());
    }
}

/// A node has in-degree zero exactly when no edge enters it.
proof fn lemma_in_degree_zero(edges: Seq<Edge>, i: int)
    ensures
        spec_in_degree(edges, i) == 0 <==> forall|j: int|
            0 <= j < edges.len() ==> (#[trigger] edges[j]).to != i,
    decreases edges.len(),
{
    if edges.len() > 0 {
        lemma_in_degree_zero(edges.drop_last(), i);
        assert(forall|j: int|
            0 <= j < edges.len() - 1 ==> (#[trigger] edges[j]) == edges.drop_last()[j]);
        assert(edges[edges.len() - 1] == edges.last());
    }
}

/// Every internal node decoded from a genome carries a well-formed bias.
proof fn lemma_nodes_of_internal_wf(genes: Seq<Gene>)
    ensures
        forall|i: int|
            0 <= i < spec_nodes_of(genes).len() ==> ((#[trigger] spec_nodes_of(genes)[i])
                is Internal ==> spec_nodes_of(genes)[i]->Internal_0.wf()),
    decreases genes.len(),
{
    if genes.len() > 0 {
        lemma_nodes_of_internal_wf(genes.drop_last());
        let f0 = spec_nodes_of(genes.drop_last());
        let f = spec_nodes_of(genes);
        assert forall|i: int|
            0 <= i < f.len() && (#[trigger] f[i]) is Internal implies f[i]->Internal_0.wf() by {
            if i < f0.len() {
                assert(f[i] == f0[i]);
            }
        }
    }
}

/// One pruning step preserves well-formedness and the edge-direction
/// discipline, and never resurrects a node.
proof fn lemma_prune_step_good(g: BrainState)
    requires
        g.wf(),
    ensures
        g.prune_step().wf(),
        g.sense_action_clean() ==> g.prune_step().sense_action_clean(),
        forall|i: int|
            0 <= i < g.alive.len() ==> ((#[trigger] g.prune_step().alive[i]) ==> g.alive[i]),
{
    let s = g.prune_step();
    lemma_filter_edges_sat(g.edges, |e: Edge| spec_edge_alive(s.alive, e));
    if g.sense_action_clean() {
        lemma_filter_edges_all(
            g.edges,
            |e: Edge| spec_edge_alive(s.alive, e),
            |e: Edge| spec_keep_edge(g.nodes, e),
        );
    }
}

/// The fixed point of pruning is pruned, well formed, and keeps the node
/// arena and the edge-direction discipline.
proof fn lemma_prune_fix_good(g: BrainState)
    requires
        g.wf(),
    ensures
        g.prune_fix().wf(),
        g.prune_fix().pruned(),
        g.prune_fix().nodes == g.nodes,
        g.prune_fix().alive.len() == g.alive.len(),
        g.sense_action_clean() ==> g.prune_fix().sense_action_clean(),
    decreases spec_count_true(g.alive),
{
    if g.any_removable() {
        lemma_prune_step_good(g);
        let w = choose|i: int| g.removable(i);
        lemma_count_true_lt(g.alive, g.prune_step().alive, w);
        lemma_prune_fix_good(g.prune_step());
    }
}

/// An already-pruned graph is a fixed point: a further step (and a further
/// whole pass) changes nothing.
pub proof fn lemma_prune_fixed_point(g: BrainState)
    requires
        g.wf(),
        g.pruned(),
    ensures
        g.prune_step() == g,
        g.prune_fix() == g,
{
    assert(g.prune_step().alive =~= g.alive);
    lemma_filter_edges_id(g.edges, |e: Edge| spec_edge_alive(g.prune_step().alive, e));
    assert(g.prune_step() =~= g);
}

/// The pruning invariant: in a well-formed, pruned graph whose edges obey
/// the direction discipline, every live sense node has no incoming edge,
/// and every live action node has no outgoing edge and at least one
/// incoming edge.
pub proof fn lemma_pruning_invariant(g: BrainState)
    requires
        g.wf(),
        g.pruned(),
        g.sense_action_clean(),
    ensures
        forall|i: int|
            0 <= i < g.nodes.len() && g.alive[i] && (#[trigger] g.nodes[i]) is Sense
                ==> spec_in_degree(g.edges, i) == 0,
        forall|i: int|
            0 <= i < g.nodes.len() && g.alive[i] && (#[trigger] g.nodes[i]) is Action
                ==> spec_out_degree(g.edges, i) == 0 && spec_in_degree(g.edges, i) >= 1,
{
    assert forall|i: int|
        0 <= i < g.nodes.len() && g.alive[i] && (#[trigger] g.nodes[i]) is Sense implies
        spec_in_degree(g.edges, i) == 0 by {
        lemma_in_degree_zero(g.edges, i);
        assert forall|j: int| 0 <= j < g.edges.len() implies (#[trigger] g.edges[j]).to != i by {
            assert(spec_keep_edge(g.nodes, g.edges[j]));
        }
    }
    assert forall|i: int|
        0 <= i < g.nodes.len() && g.alive[i] && (#[trigger] g.nodes[i]) is Action implies
        spec_out_degree(g.edges, i) == 0 && spec_in_degree(g.edges, i) >= 1 by {
        lemma_out_degree_zero(g.edges, i);
        assert forall|j: int| 0 <= j < g.edges.len() implies (#[trigger] g.edges[j]).from != i by {
            assert(spec_keep_edge(g.nodes, g.edges[j]));
        }
        assert(!g.removable(i));
    }
}

/// Pruning twice removes nothing beyond pruning once.
pub proof fn lemma_prune_fix_idempotent(g: BrainState)
    requires
        g.wf(),
    ensures
        g.prune_fix().prune_fix() == g.prune_fix(),
{
    lemma_prune_fix_good(g);
    lemma_prune_fixed_point(g.prune_fix());
}

/// A marked set that holds the live action nodes and is closed under
/// stepping backward along edges holds every node that reaches an action.
proof fn lemma_reaches_marked(g: BrainState, mark: Seq<bool>, i: int, k: nat)
    requires
        mark.len() == g.nodes.len(),
        forall|q: int|
            0 <= q < g.nodes.len() && g.alive[q] && (#[trigger] g.nodes[q]) is Action ==> mark[q],
        forall|j: int|
            0 <= j < g.edges.len() ==> (mark[(#[trigger] g.edges[j]).to as int]
                ==> mark[g.edges[j].from as int]),
        g.reaches(i, k),
    ensures
        mark[i],
    decreases k,
{
    if !(g.nodes[i] is Action) {
        let j = choose|j: int|
            0 <= j < g.edges.len() && (#[trigger] g.edges[j]).from as int == i && g.reaches(
                g.edges[j].to as int,
                (k - 1) as nat,
            );
        lemma_reaches_marked(g, mark, g.edges[j].to as int, (k - 1) as nat);
    }
}

/// A non-action node that reaches an action does so through an edge to a
/// different live node that also reaches an action.
proof fn lemma_reach_step(g: BrainState, i: int, k: nat)
    requires
        g.reaches(i, k),
        !(g.nodes[i] is Action),
    ensures
        exists|j: int|
            0 <= j < g.edges.len() && (#[trigger] g.edges[j]).from as int == i
                && g.edges[j].to as int != i && g.reaches_action(g.edges[j].to as int),
    decreases k,
{
    let j = choose|j: int|
        0 <= j < g.edges.len() && (#[trigger] g.edges[j]).from as int == i && g.reaches(
            g.edges[j].to as int,
            (k - 1) as nat,
        );
    if g.edges[j].to as int == i {
        lemma_reach_step(g, i, (k - 1) as nat);
    } else {
        assert(g.reaches_action(g.edges[j].to as int));
    }
}

/// A derivation of reachability survives the reachability pass: every
/// node and edge it runs through is kept.
proof fn lemma_reaches_in_filtered(g: BrainState, i: int, k: nat)
    requires
        g.wf(),
        g.reaches(i, k),
    ensures
        g.prune_unreachable().reaches(i, k),
    decreases k,
{
    let g2 = g.prune_unreachable();
    assert(g.reaches_action(i));
    assert(g2.alive[i]);
    if !(g.nodes[i] is Action) {
        let j = choose|j: int|
            0 <= j < g.edges.len() && (#[trigger] g.edges[j]).from as int == i && g.reaches(
                g.edges[j].to as int,
                (k - 1) as nat,
            );
        let to = g.edges[j].to as int;
        lemma_reaches_in_filtered(g, to, (k - 1) as nat);
        assert(g.reaches_action(to));
        assert(spec_edge_alive(g2.alive, g.edges[j]));
        lemma_filter_edges_mem(g.edges, |e: Edge| spec_edge_alive(g2.alive, e), j);
        let j2 = choose|j2: int|
            0 <= j2 < g2.edges.len() && #[trigger] g2.edges[j2] == g.edges[j];
        assert(0 <= j2 < g2.edges.len() && g2.edges[j2].from as int == i && g2.reaches(
            g2.edges[j2].to as int,
            (k - 1) as nat,
        ));
    }
}

/// The reachability pass on a pruned, well-formed, direction-clean graph
/// keeps it so, and leaves only nodes that are backward-reachable from an
/// action in the resulting graph itself.
proof fn lemma_prune_unreachable_good(g: BrainState)
    requires
        g.wf(),
        g.pruned(),
        g.sense_action_clean(),
    ensures
        g.prune_unreachable().wf(),
        g.prune_unreachable().pruned(),
        g.prune_unreachable().sense_action_clean(),
        forall|i: int|
            0 <= i < g.nodes.len() && #[trigger] g.prune_unreachable().alive[i]
                ==> g.prune_unreachable().reaches_action(i),
{
    let g2 = g.prune_unreachable();
    let live = |e: Edge| spec_edge_alive(g2.alive, e);
    lemma_filter_edges_sat(g.edges, live);
    lemma_filter_edges_all(g.edges, live, |e: Edge| spec_keep_edge(g.nodes, e));
    assert(g2.wf());
    assert(g2.sense_action_clean());
    assert forall|i: int|
        0 <= i < g.nodes.len() && #[trigger] g2.alive[i] implies g2.reaches_action(i) by {
        let k = choose|k: nat| g.reaches(i, k);
        lemma_reaches_in_filtered(g, i, k);
    }
    assert forall|i: int| !g2.removable(i) by {
        if 0 <= i < g2.nodes.len() && i < g2.alive.len() && g2.alive[i] {
            match g.nodes[i] {
                Node::Action(_) => {
                    // Every predecessor of a reachable node is itself
                    // reachable, so the whole in-degree is preserved.
                    assert forall|j: int|
                        0 <= j < g.edges.len() && (#[trigger] g.edges[j]).to as int == i implies
                        live(g.edges[j]) by {
                        let k = choose|k: nat| g.reaches(i, k);
                        assert(g.reaches(g.edges[j].from as int, k + 1));
                    }
                    lemma_filter_in_degree(g.edges, live, i);
                    assert(!g.removable(i));
                },
                _ => {
                    // A reachable non-action node keeps an edge to some
                    // other reachable node.
                    let k = choose|k: nat| g.reaches(i, k);
                    lemma_reach_step(g, i, k);
                    let j = choose|j: int|
                        0 <= j < g.edges.len() && (#[trigger] g.edges[j]).from as int == i
                            && g.edges[j].to as int != i && g.reaches_action(
                            g.edges[j].to as int,
                        );
                    assert(live(g.edges[j]));
                    lemma_filter_edges_mem(g.edges, live, j);
                    let j2 = choose|j2: int|
                        0 <= j2 < g2.edges.len() && #[trigger] g2.edges[j2] == g.edges[j];
                    lemma_out_degree_zero(g2.edges, i);
                    assert(!spec_all_out_self(g2.edges, i));
                },
            }
        }
    }
}

/// The graph a genome builds: decode nodes and connection halves, wire
/// edge pairs, drop edges into senses and out of actions, prune nodes to
/// the fixed point, then drop every node with no directed path to a
/// surviving action node. Fails exactly when there are connections to
/// wire but no nodes.
pub open spec fn spec_build(genes: Seq<Gene>) -> Result<BrainState, InvalidGenome> {
    let nodes = spec_nodes_of(genes);
    let conns = spec_conns_of(genes);
    if nodes.len() == 0 && conns.len() >= 2 {
        Err(InvalidGenome)
    } else {
        let raw = BrainState {
            nodes,
            alive: Seq::new(nodes.len(), |i: int| true),
            edges: spec_prune_edges(nodes, spec_wire(conns, nodes.len())),
        };
        Ok(raw.prune_fix().prune_unreachable())
    }
}

/// Every gene becomes exactly one node or one connection half.
pub proof fn lemma_decode_counts(genes: Seq<Gene>)
    ensures
        spec_nodes_of(genes).len() + spec_conns_of(genes).len() == genes.len(),
    decreases genes.len(),
{
    if genes.len() > 0 {
        lemma_decode_counts(genes.drop_last());
    }
}

/// A brain graph: a dense node arena, a liveness mask of the same length,
/// and the surviving edges.
#[derive(Clone, PartialEq, Eq, Debug)]
pub struct Brain {
    pub nodes: Vec<Node>,
    pub alive: Vec<bool>,
    pub edges: Vec<Edge>,
}

impl View for Brain {
    type V = BrainState;

    open spec fn view(&self) -> BrainState {
        BrainState { nodes: self.nodes@, alive: self.alive@, edges: self.edges@ }
    }
}

/// Number of edges of `edges` leaving node `i`.
fn out_degree_of(edges: &Vec<Edge>, i: usize) -> (d: usize)
    ensures
        d == spec_out_degree(edges@, i as int),
{
    let mut d: usize = 0;
    let mut j: usize = 0;
    proof {
        assert(edges@.subrange(0, 0) =~= Seq::<Edge>::empty());
    }
    while j < edges.len()
        invariant
            j <= edges@.len(),
            d <= j,
            d == spec_out_degree(edges@.subrange(0, j as int), i as int),
        decreases edges@.len() - j,
    {
        proof {
            assert(edges@.subrange(0, j + 1).drop_last() =~= edges@.subrange(0, j as int));
        }
        if edges[j].from == i {
            d = d + 1;
        }
        j = j + 1;
    }
    proof {
        assert(edges@.subrange(0, edges@.len() as int) =~= edges@);
    }
    d
}

/// Number of edges of `edges` entering node `i`.
fn in_degree_of(edges: &Vec<Edge>, i: usize) -> (d: usize)
    ensures
        d == spec_in_degree(edges@, i as int),
{
    let mut d: usize = 0;
    let mut j: usize = 0;
    proof {
        assert(edges@.subrange(0, 0) =~= Seq::<Edge>::empty());
    }
    while j < edges.len()
        invariant
            j <= edges@.len(),
            d <= j,
            d == spec_in_degree(edges@.subrange(0, j as int), i as int),
        decreases edges@.len() - j,
    {
        proof {
            assert(edges@.subrange(0, j + 1).drop_last() =~= edges@.subrange(0, j as int));
        }
        if edges[j].to == i {
            d = d + 1;
        }
        j = j + 1;
    }
    proof {
        assert(edges@.subrange(0, edges@.len() as int) =~= edges@);
    }
    d
}

/// Whether every edge of `edges` leaving node `i` is a self-loop.
fn all_out_self_of(edges: &Vec<Edge>, i: usize) -> (r: bool)
    ensures
        r == spec_all_out_self(edges@, i as int),
{
    let mut j: usize = 0;
    while j < edges.len()
        invariant
            j <= edges@.len(),
            forall|k: int| 0 <= k < j && (#[trigger] edges@[k]).from == i ==> edges@[k].to == i,
        decreases edges@.len() - j,
    {
        if edges[j].from == i && edges[j].to != i {
            return false;
        }
        j = j + 1;
    }
    true
}

impl Brain {
    /// Number of live nodes.
    pub fn node_count(&self) -> (n: usize)
        ensures
            n == spec_count_true(self@.alive),
    {
        let mut n: usize = 0;
        let mut i: usize = 0;
        proof {
            assert(self.alive@.subrange(0, 0) =~= Seq::<bool>::empty());
        }
        while i < self.alive.len()
            invariant
                i <= self.alive@.len(),
                n <= i,
                n == spec_count_true(self.alive@.subrange(0, i as int)),
            decreases self.alive@.len() - i,
        {
            proof {
                assert(self.alive@.subrange(0, i + 1).drop_last() =~= self.alive@.subrange(
                    0,
                    i as int,
                ));
            }
            if self.alive[i] {
                n = n + 1;
            }
            i = i + 1;
        }
        proof {
            assert(self.alive@.subrange(0, self.alive@.len() as int) =~= self.alive@);
        }
        n
    }

    /// Number of surviving edges.
    pub fn edge_count(&self) -> (n: usize)
        ensures
            n == self@.edges.len(),
    {
        self.edges.len()
    }

    /// Number of surviving edges entering node `i`.
    pub fn in_degree(&self, i: usize) -> (d: usize)
        ensures
            d == spec_in_degree(self@.edges, i as int),
    {
        in_degree_of(&self.edges, i)
    }

    /// Number of surviving edges leaving node `i`.
    pub fn out_degree(&self, i: usize) -> (d: usize)
        ensures
            d == spec_out_degree(self@.edges, i as int),
    {
        out_degree_of(&self.edges, i)
    }

    /// Builds the brain graph a genome encodes, or fails with
    /// `InvalidGenome` exactly when the genome has at least one complete
    /// connection pair and no nodes.
    pub fn build(genome: &Vec<Gene>) -> (r: Result<Brain, InvalidGenome>)
        ensures
            r is Ok <==> spec_build(genome@) is Ok,
            r is Ok ==> r->Ok_0@ == spec_build(genome@)->Ok_0,
            r is Ok ==> r->Ok_0@.wf() && r->Ok_0@.pruned() && r->Ok_0@.sense_action_clean(),
            r is Ok ==> forall|i: int|
                0 <= i < r->Ok_0@.nodes.len() && r->Ok_0@.alive[i] && (#[trigger] r->Ok_0@.nodes[i])
                    is Sense ==> spec_in_degree(r->Ok_0@.edges, i) == 0,
            r is Ok ==> forall|i: int|
                0 <= i < r->Ok_0@.nodes.len() && r->Ok_0@.alive[i] && (#[trigger] r->Ok_0@.nodes[i])
                    is Action ==> spec_out_degree(r->Ok_0@.edges, i) == 0 && spec_in_degree(
                    r->Ok_0@.edges,
                    i,
                ) >= 1,
            r is Ok ==> forall|i: int|
                0 <= i < r->Ok_0@.nodes.len() && (#[trigger] r->Ok_0@.alive[i])
                    ==> r->Ok_0@.reaches_action(i),
    {
        let ghost genes = genome@;
        let mut nodes: Vec<Node> = Vec::new();
        let mut conns: Vec<(u8, bool)> = Vec::new();
        let mut gi: usize = 0;
        proof {
            assert(genes.subrange(0, 0) =~= Seq::<Gene>::empty());
        }
        while gi < genome.len()
            invariant
                gi <= genes.len(),
                genes == genome@,
                nodes@ == spec_nodes_of(genes.subrange(0, gi as int)),
                conns@ == spec_conns_of(genes.subrange(0, gi as int)),
            decreases genes.len() - gi,
        {
            proof {
                assert(genes.subrange(0, gi + 1).drop_last() =~= genes.subrange(0, gi as int));
                assert(genes.subrange(0, gi + 1).last() == genes[gi as int]);
            }
            let ghost nodes0 = nodes@;
            let ghost conns0 = conns@;
            match genome[gi].parse() {
                GeneParse::Sense(v) => {
                    nodes.push(Node::Sense(v));
                    proof {
                        assert(nodes@ =~= nodes0 + seq![Node::Sense(v)]);
                        assert(conns@ =~= conns0 + Seq::<(u8, bool)>::empty());
                    }
                },
                GeneParse::Action(v) => {
                    nodes.push(Node::Action(v));
                    proof {
                        assert(nodes@ =~= nodes0 + seq![Node::Action(v)]);
                        assert(conns@ =~= conns0 + Seq::<(u8, bool)>::empty());
                    }
                },
                GeneParse::Internal(b) => {
                    nodes.push(Node::Internal(b));
                    proof {
                        assert(nodes@ =~= nodes0 + seq![Node::Internal(b)]);
                        assert(conns@ =~= conns0 + Seq::<(u8, bool)>::empty());
                    }
                },
                GeneParse::Connection(x, inv) => {
                    conns.push((x, inv));
                    proof {
                        assert(conns@ =~= conns0 + seq![(x, inv)]);
                        assert(nodes@ =~= nodes0 + Seq::<Node>::empty());
                    }
                },
            }
            gi = gi + 1;
        }
        proof {
            assert(genes.subrange(0, genes.len() as int) =~= genes);
        }
        let n = nodes.len();
        if n == 0 && conns.len() >= 2 {
            return Err(InvalidGenome);
        }
        // Wire consecutive connection pairs, endpoints taken modulo the
        // node count.
        let mut edges: Vec<Edge> = Vec::new();
        let mut p: usize = 0;
        proof {
            assert(conns@.skip(0) =~= conns@);
            assert(Seq::<Edge>::empty() + spec_wire(conns@, n as nat) =~= spec_wire(
                conns@,
                n as nat,
            ));
        }
        while p < conns.len() / 2
            invariant
                2 * p <= conns@.len(),
                n == nodes@.len(),
                conns@.len() >= 2 ==> n >= 1,
                spec_wire(conns@, n as nat) == edges@ + spec_wire(
                    conns@.skip(2 * p as int),
                    n as nat,
                ),
                forall|j: int|
                    0 <= j < edges@.len() ==> (#[trigger] edges@[j]).from < n && edges@[j].to < n,
            decreases conns@.len() - 2 * p,
        {
            proof {
                assert(2 * p + 1 < conns@.len());
            }
            let ghost rest = conns@.skip(2 * p as int);
            let ghost edges0 = edges@;
            let a = conns[2 * p];
            let b = conns[2 * p + 1];
            let e = Edge { from: (a.0 as usize) % n, to: (b.0 as usize) % n, inverted: a.1 };
            edges.push(e);
            proof {
                assert(rest[0] == a && rest[1] == b);
                assert(rest.skip(2) =~= conns@.skip(2 * (p + 1)));
                assert(spec_wire(rest, n as nat) == seq![e] + spec_wire(rest.skip(2), n as nat));
                assert(edges@ =~= edges0 + seq![e]);
                assert(edges0 + (seq![e] + spec_wire(rest.skip(2), n as nat)) =~= edges@
                    + spec_wire(rest.skip(2), n as nat));
            }
            p = p + 1;
        }
        proof {
            assert(spec_wire(conns@.skip(2 * p as int), n as nat) =~= Seq::<Edge>::empty());
            assert(edges@ + Seq::<Edge>::empty() =~= edges@);
        }
        // Edge-pruning pass: drop edges entering senses or leaving actions.
        let ghost keep = |e: Edge| spec_keep_edge(nodes@, e);
        let mut kept: Vec<Edge> = Vec::new();
        let mut j: usize = 0;
        proof {
            assert(edges@.subrange(0, 0) =~= Seq::<Edge>::empty());
        }
        while j < edges.len()
            invariant
                j <= edges@.len(),
                n == nodes@.len(),
                keep == (|e: Edge| spec_keep_edge(nodes@, e)),
                kept@ == spec_filter_edges(edges@.subrange(0, j as int), keep),
                forall|k: int|
                    0 <= k < edges@.len() ==> (#[trigger] edges@[k]).from < n && edges@[k].to < n,
            decreases edges@.len() - j,
        {
            proof {
                assert(edges@.subrange(0, j + 1).drop_last() =~= edges@.subrange(0, j as int));
                assert(edges@.subrange(0, j + 1).last() == edges@[j as int]);
            }
            let ghost kept0 = kept@;
            let e = edges[j];
            let keep_to = match nodes[e.to] {
                Node::Sense(_) => false,
                _ => true,
            };
            let keep_from = match nodes[e.from] {
                Node::Action(_) => false,
                _ => true,
            };
            if keep_to && keep_from {
                kept.push(e);
                proof {
                    assert(kept@ =~= kept0 + seq![e]);
                }
            } else {
                proof {
                    assert(kept0 + Seq::<Edge>::empty() =~= kept0);
                }
            }
            j = j + 1;
        }
        proof {
            assert(edges@.subrange(0, edges@.len() as int) =~= edges@);
        }
        // All nodes start alive; the node-pruning pass then runs to its
        // fixed point.
        let mut alive: Vec<bool> = Vec::new();
        let mut i: usize = 0;
        while i < n
            invariant
                i <= n,
                alive@.len() == i,
                forall|k: int| 0 <= k < i ==> alive@[k],
            decreases n - i,
        {
            alive.push(true);
            i = i + 1;
        }
        proof {
            assert(alive@ =~= Seq::new(n as nat, |k: int| true));
        }
        let mut brain = Brain { nodes, alive, edges: kept };
        proof {
            lemma_filter_edges_sat(edges@, keep);
            lemma_filter_edges_all(
                edges@,
                keep,
                |e: Edge| e.from < brain@.nodes.len() && e.to < brain@.nodes.len(),
            );
            lemma_nodes_of_internal_wf(genes);
            assert forall|k: int| 0 <= k < brain@.edges.len() implies spec_edge_alive(
                brain@.alive,
                #[trigger] brain@.edges[k],
            ) by {
                assert(brain@.edges[k].from < n && brain@.edges[k].to < n);
                assert(brain@.alive[brain@.edges[k].from as int]);
                assert(brain@.alive[brain@.edges[k].to as int]);
            }
            assert(brain@.wf());
            assert(brain@.sense_action_clean());
        }
        brain.prune_nodes();
        proof {
            lemma_prune_fix_good(
                BrainState {
                    nodes: spec_nodes_of(genes),
                    alive: Seq::new(spec_nodes_of(genes).len(), |k: int| true),
                    edges: spec_prune_edges(spec_nodes_of(genes), spec_wire(
                        spec_conns_of(genes),
                        spec_nodes_of(genes).len(),
                    )),
                },
            );
            lemma_prune_unreachable_good(brain@);
        }
        brain.prune_unreachable();
        proof {
            lemma_pruning_invariant(brain@);
        }
        Ok(brain)
    }

    /// Runs the batch node-pruning pass to its fixed point: repeatedly
    /// removes sense and internal nodes with no outgoing edge (or a single
    /// self-loop) and action nodes with no incoming edge, until a scan
    /// removes nothing.
    pub fn prune_nodes(&mut self)
        requires
            old(self)@.wf(),
        ensures
            final(self)@ == old(self)@.prune_fix(),
            final(self)@.wf(),
            final(self)@.pruned(),
    {
        loop
            invariant
                self@.wf(),
                self@.prune_fix() == old(self)@.prune_fix(),
            ensures
                self@.wf(),
                self@.pruned(),
                self@.prune_fix() == old(self)@.prune_fix(),
            decreases spec_count_true(self@.alive),
        {
            let ghost g = self@;
            let n = self.nodes.len();
            // Scan: mark every node the current pass removes.
            let mut removable: Vec<bool> = Vec::new();
            let mut any: bool = false;
            let mut i: usize = 0;
            while i < n
                invariant
                    i <= n,
                    g == self@,
                    n == g.nodes.len(),
                    g.wf(),
                    removable@.len() == i,
                    forall|k: int| 0 <= k < i ==> removable@[k] == g.removable(k),
                    any == exists|k: int| 0 <= k < i && g.removable(k),
                decreases n - i,
            {
                let r: bool;
                if !self.alive[i] {
                    r = false;
                } else {
                    match self.nodes[i] {
                        Node::Action(_) => {
                            r = in_degree_of(&self.edges, i) == 0;
                        },
                        _ => {
                            let d = out_degree_of(&self.edges, i);
                            if d == 0 {
                                r = true;
                            } else if d == 1 {
                                r = all_out_self_of(&self.edges, i);
                            } else {
                                r = false;
                            }
                        },
                    }
                }
                proof {
                    assert(r == g.removable(i as int));
                }
                removable.push(r);
                any = any || r;
                i = i + 1;
            }
            if !any {
                proof {
                    assert(!g.any_removable());
                    lemma_prune_fixed_point(g);
                }
                break ;
            }
            proof {
                assert(g.any_removable());
            }
            // Remove the marked nodes in one batch.
            let mut i: usize = 0;
            while i < n
                invariant
                    i <= n,
                    n == self.nodes@.len(),
                    self.nodes@ == g.nodes,
                    self.edges@ == g.edges,
                    self.alive@.len() == g.alive.len(),
                    g.alive.len() == g.nodes.len(),
                    removable@.len() == n,
                    forall|k: int| 0 <= k < n ==> removable@[k] == g.removable(k),
                    forall|k: int|
                        0 <= k < i ==> self.alive@[k] == ((#[trigger] g.alive[k])
                            && !g.removable(k)),
                    forall|k: int| i <= k < n ==> self.alive@[k] == (#[trigger] g.alive[k]),
                decreases n - i,
            {
                let ghost alive0 = self.alive@;
                if removable[i] {
                    self.alive.set(i, false);
                } else {
                    proof {
                        assert(self.alive@[i as int] == g.alive[i as int]);
                    }
                }
                proof {
                    assert forall|k: int| 0 <= k < i + 1 implies self.alive@[k] == ((
                    #[trigger] g.alive[k]) && !g.removable(k)) by {
                        if k < i {
                            assert(alive0[k] == (g.alive[k] && !g.removable(k)));
                        }
                    }
                }
                i = i + 1;
            }
            proof {
                assert forall|k: int| 0 <= k < n implies self.alive@[k] == g.prune_step().alive[k]
                    by {
                    assert(self.alive@[k] == (g.alive[k] && !g.removable(k)));
                }
                assert(self.alive@ =~= g.prune_step().alive);
            }
            // Drop edges with a dead endpoint.
            let ghost live = |e: Edge| spec_edge_alive(self.alive@, e);
            let mut kept: Vec<Edge> = Vec::new();
            let mut j: usize = 0;
            proof {
                assert(self.edges@.subrange(0, 0) =~= Seq::<Edge>::empty());
            }
            while j < self.edges.len()
                invariant
                    j <= self.edges@.len(),
                    self.edges@ == g.edges,
                    self.alive@ == g.prune_step().alive,
                    g.wf(),
                    live == (|e: Edge| spec_edge_alive(self.alive@, e)),
                    kept@ == spec_filter_edges(self.edges@.subrange(0, j as int), live),
                decreases self.edges@.len() - j,
            {
                proof {
                    assert(self.edges@.subrange(0, j + 1).drop_last() =~= self.edges@.subrange(
                        0,
                        j as int,
                    ));
                    assert(self.edges@.subrange(0, j + 1).last() == self.edges@[j as int]);
                }
                let ghost kept0 = kept@;
                let e = self.edges[j];
                let from_ok = e.from < self.alive.len() && self.alive[e.from];
                let to_ok = e.to < self.alive.len() && self.alive[e.to];
                if from_ok && to_ok {
                    kept.push(e);
                    proof {
                        assert(kept@ =~= kept0 + seq![e]);
                    }
                } else {
                    proof {
                        assert(kept0 + Seq::<Edge>::empty() =~= kept0);
                    }
                }
                j = j + 1;
            }
            proof {
                assert(self.edges@.subrange(0, self.edges@.len() as int) =~= self.edges@);
            }
            self.edges = kept;
            proof {
                assert(self@ =~= g.prune_step());
                lemma_prune_step_good(g);
                let w = choose|k: int| g.removable(k);
                lemma_count_true_lt(g.alive, g.prune_step().alive, w);
            }
        }
    }

    /// Runs the backward-reachability pass: removes every node with no
    /// directed path to a live action node, with its incident edges, so
    /// no disconnected subgraph survives.
    pub fn prune_unreachable(&mut self)
        requires
            old(self)@.wf(),
        ensures
            final(self)@ == old(self)@.prune_unreachable(),
            final(self)@.wf(),
    {
        let ghost g = self@;
        let n = self.nodes.len();
        // Seed the mark with the live action nodes.
        let mut mark: Vec<bool> = Vec::new();
        let mut i: usize = 0;
        while i < n
            invariant
                i <= n,
                n == g.nodes.len(),
                g == self@,
                g.wf(),
                mark@.len() == i,
                forall|p: int|
                    0 <= p < i ==> mark@[p] == (g.alive[p] && (#[trigger] g.nodes[p]) is Action),
            decreases n - i,
        {
            let m = self.alive[i] && match self.nodes[i] {
                Node::Action(_) => true,
                _ => false,
            };
            mark.push(m);
            i = i + 1;
        }
        proof {
            assert forall|p: int| 0 <= p < n && #[trigger] mark@[p] implies g.reaches_action(
                p,
            ) by {
                assert(g.reaches(p, 0));
            }
            lemma_count_true_le_len(mark@);
        }
        // Propagate the mark backward along edges to a fixed point.
        loop
            invariant
                g == self@,
                g.wf(),
                n == g.nodes.len(),
                mark@.len() == n,
                forall|p: int|
                    0 <= p < n && g.alive[p] && (#[trigger] g.nodes[p]) is Action ==> mark@[p],
                forall|p: int| 0 <= p < n && #[trigger] mark@[p] ==> g.reaches_action(p),
            ensures
                g == self@,
                mark@.len() == n,
                forall|p: int|
                    0 <= p < n && g.alive[p] && (#[trigger] g.nodes[p]) is Action ==> mark@[p],
                forall|p: int| 0 <= p < n && #[trigger] mark@[p] ==> g.reaches_action(p),
                forall|j: int|
                    0 <= j < g.edges.len() ==> (mark@[(#[trigger] g.edges[j]).to as int]
                        ==> mark@[g.edges[j].from as int]),
            decreases n - spec_count_true(mark@),
        {
            let ghost mark0 = mark@;
            let mut changed = false;
            let mut j: usize = 0;
            while j < self.edges.len()
                invariant
                    g == self@,
                    g.wf(),
                    n == g.nodes.len(),
                    mark@.len() == n,
                    j <= g.edges.len(),
                    forall|p: int| 0 <= p < n && #[trigger] mark0[p] ==> mark@[p],
                    forall|p: int| 0 <= p < n && #[trigger] mark@[p] ==> g.reaches_action(p),
                    forall|p: int|
                        0 <= p < n && g.alive[p] && (#[trigger] g.nodes[p]) is Action
                            ==> mark@[p],
                    changed ==> exists|w: int| 0 <= w < n && #[trigger] mark@[w] && !mark0[w],
                    !changed ==> mark@ == mark0,
                    !changed ==> forall|jj: int|
                        0 <= jj < j ==> (mark@[(#[trigger] g.edges[jj]).to as int]
                            ==> mark@[g.edges[jj].from as int]),
                decreases g.edges.len() - j,
            {
                let e = self.edges[j];
                proof {
                    assert(spec_edge_alive(g.alive, g.edges[j as int]));
                }
                if mark[e.to] && !mark[e.from] {
                    proof {
                        let k = choose|k: nat| g.reaches(e.to as int, k);
                        assert(0 <= j < g.edges.len() && (g.edges[j as int]).from as int
                            == e.from as int && g.reaches(g.edges[j as int].to as int, k));
                        assert(g.reaches(e.from as int, k + 1));
                    }
                    mark.set(e.from, true);
                    changed = true;
                    proof {
                        assert(e.from < n && mark@[e.from as int] && !mark0[e.from as int]);
                    }
                }
                j = j + 1;
            }
            if !changed {
                break ;
            }
            proof {
                let w = choose|w: int| 0 <= w < n && #[trigger] mark@[w] && !mark0[w];
                lemma_count_true_lt(mark@, mark0, w);
                lemma_count_true_le_len(mark@);
            }
        }
        proof {
            // The mark is exactly the reach mask.
            assert forall|p: int| 0 <= p < n implies mark@[p] == (g.alive[p]
                && g.reaches_action(p)) by {
                if mark@[p] {
                    let k = choose|k: nat| g.reaches(p, k);
                    assert(g.alive[p]);
                }
                if g.alive[p] && g.reaches_action(p) {
                    let k = choose|k: nat| g.reaches(p, k);
                    lemma_reaches_marked(g, mark@, p, k);
                }
            }
        }
        self.alive = mark;
        proof {
            assert(self.alive@ =~= g.reach_mask());
        }
        // Drop edges with a dead endpoint.
        let ghost live = |e: Edge| spec_edge_alive(self.alive@, e);
        let mut kept: Vec<Edge> = Vec::new();
        let mut j: usize = 0;
        proof {
            assert(self.edges@.subrange(0, 0) =~= Seq::<Edge>::empty());
        }
        while j < self.edges.len()
            invariant
                j <= self.edges@.len(),
                self.edges@ == g.edges,
                self.nodes@ == g.nodes,
                self.alive@ == g.reach_mask(),
                live == (|e: Edge| spec_edge_alive(self.alive@, e)),
                kept@ == spec_filter_edges(self.edges@.subrange(0, j as int), live),
            decreases self.edges@.len() - j,
        {
            proof {
                assert(self.edges@.subrange(0, j + 1).drop_last() =~= self.edges@.subrange(
                    0,
                    j as int,
                ));
                assert(self.edges@.subrange(0, j + 1).last() == self.edges@[j as int]);
            }
            let ghost kept0 = kept@;
            let e = self.edges[j];
            let from_ok = e.from < self.alive.len() && self.alive[e.from];
            let to_ok = e.to < self.alive.len() && self.alive[e.to];
            if from_ok && to_ok {
                kept.push(e);
                proof {
                    assert(kept@ =~= kept0 + seq![e]);
                }
            } else {
                proof {
                    assert(kept0 + Seq::<Edge>::empty() =~= kept0);
                }
            }
            j = j + 1;
        }
        proof {
            assert(self.edges@.subrange(0, self.edges@.len() as int) =~= self.edges@);
        }
        self.edges = kept;
        proof {
            assert(self@ =~= g.prune_unreachable());
            let live2 = |e: Edge| spec_edge_alive(g.prune_unreachable().alive, e);
            lemma_filter_edges_sat(g.edges, live2);
            assert(self@.wf());
        }
    }
}

} // verus!
