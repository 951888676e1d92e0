//! Brain evaluation: resolving every action node's activation weight by
//! walking incoming edges, and picking the dominant action.
//!
//! The walk is a depth-first fold over incoming neighbours. The `history`
//! list records every node visited so far during one action's resolution;
//! a revisited node answers from its bias (internal) or contributes
//! nothing (action) instead of recursing, which makes evaluation of cyclic
//! graphs terminate. The recursion is additionally indexed by a fuel
//! counter that falls by one per nested resolution; the fuel given by
//! `spec_eval_fuel` exceeds the deepest possible walk (each nested call
//! pushes one fresh node of a finite arena), so it only pins the measure.
//!
//! Ties between equally weighted actions keep the first one in node-index
//! order; among parallel edges the first in edge order supplies the
//! inversion flag. Both choices are fixed here to keep evaluation
//! deterministic.

use vstd::prelude::*;

use crate::brain::{spec_edge_alive, spec_in_degree, spec_out_degree, Brain, BrainState, Edge, Node};
use crate::gene::{ActionType, SenseType};
use crate::rat::{spec_add, spec_div_int, spec_mul, Rat};

verus! {

/// One sensory snapshot: an activation value for each sense channel.
#[derive(Clone, Copy, PartialEq, Eq, Structural, Debug)]
pub struct Sense {
    pub blocked: Rat,
    pub agent: Rat,
    pub agent_density: Rat,
    pub food: Rat,
    pub food_density: Rat,
    pub direction: Rat,
}

impl Sense {
    /// All channel values are well-formed rationals.
    pub open spec fn wf(self) -> bool {
        &&& self.blocked.wf()
        &&& self.agent.wf()
        &&& self.agent_density.wf()
        &&& self.food.wf()
        &&& self.food_density.wf()
        &&& self.direction.wf()
    }

    /// The value of one channel.
    pub open spec fn spec_get(self, sense: SenseType) -> Rat {
        match sense {
            SenseType::Blocked => self.blocked,
            SenseType::Agent => self.agent,
            SenseType::AgentDensity => self.agent_density,
            SenseType::Food => self.food,
            SenseType::FoodDensity => self.food_density,
            SenseType::Direction => self.direction,
        }
    }

    /// A snapshot from one value per channel, in the fixed channel order.
    pub fn new(
        blocked: Rat,
        agent: Rat,
        agent_density: Rat,
        food: Rat,
        food_density: Rat,
        direction: Rat,
    ) -> (s: Sense)
        ensures
            s == (Sense { blocked, agent, agent_density, food, food_density, direction }),
    {
        Sense { blocked, agent, agent_density, food, food_density, direction }
    }

    /// Reads one channel.
    pub fn get(&self, sense: &SenseType) -> (r: Rat)
        ensures
            r == self.spec_get(*sense),
    {
        match sense {
            SenseType::Blocked => self.blocked,
            SenseType::Agent => self.agent,
            SenseType::AgentDensity => self.agent_density,
            SenseType::Food => self.food,
            SenseType::FoodDensity => self.food_density,
            SenseType::Direction => self.direction,
        }
    }
}

/// The inversion flag of the first edge from `from` to `to`, if any.
pub open spec fn spec_find_edge(edges: Seq<Edge>, from: usize, to: usize) -> Option<bool>
    decreases edges.len(),
{
    if edges.len() == 0 {
        None
    } else if edges[0].from == from && edges[0].to == to {
        Some(edges[0].inverted)
    } else {
        spec_find_edge(edges.drop_first(), from, to)
    }
}

/// The cycle guard: a revisited internal node without incoming edges
/// answers its bias as a constant instead of recursing.
pub open spec fn history_guard_bias(g: BrainState, node: usize, h: Seq<usize>) -> bool {
    h.contains(node) && g.nodes[node as int] is Internal && spec_in_degree(g.edges, node as int)
        == 0
}

/// The recursive resolution of one node's weight, together with the
/// visited list it leaves behind.
///
/// In order: a revisited isolated internal node answers its bias (the
/// cycle guard); a sense node answers its channel; any other revisited
/// node answers its bias (internal) or nothing (action); otherwise the
/// node is pushed and its incoming neighbours are folded, the result
/// being the neighbour average times the node's bias, the bias alone for
/// an internal node without live inputs, or nothing for an action node
/// without live inputs.
pub open spec fn spec_resolve(
    g: BrainState,
    sense: Sense,
    node: usize,
    history: Seq<usize>,
    fuel: nat,
) -> (Option<Rat>, Seq<usize>)
    decreases fuel, 1nat, 0nat,
{
    if fuel == 0 {
        (None, history)
    } else if history_guard_bias(g, node, history) {
        (Some(g.nodes[node as int]->Internal_0), history)
    } else if g.nodes[node as int] is Sense {
        (Some(sense.spec_get(g.nodes[node as int]->Sense_0)), history)
    } else if history.contains(node) {
        if g.nodes[node as int] is Internal {
            (Some(g.nodes[node as int]->Internal_0), history)
        } else {
            (None, history)
        }
    } else {
        let flag = if history.len() == 0 {
            None
        } else {
            spec_find_edge(g.edges, node, history.last())
        };
        let bias = if g.nodes[node as int] is Internal {
            g.nodes[node as int]->Internal_0
        } else {
            Rat::spec_one()
        };
        let folded = spec_resolve_inputs(
            g,
            sense,
            node,
            flag,
            0,
            0,
            Some(Rat::spec_zero()),
            history.push(node),
            fuel,
        );
        let cnt = folded.0;
        let sum = folded.1;
        let out = if cnt == 0 {
            if g.nodes[node as int] is Internal {
                Some(bias)
            } else {
                None
            }
        } else {
            match sum {
                None => None,
                Some(s) => match spec_div_int(s, cnt) {
                    None => None,
                    Some(q) => spec_mul(q, bias),
                },
            }
        };
        (out, folded.2)
    }
}

/// The fold over a node's incoming edges, from edge index `j` on: each
/// neighbour with a defined weight contributes it (negated when the flag
/// of the edge back to the parent is set) to a running count and sum. An
/// overflowing sum poisons the total, which resolves the node to nothing.
pub open spec fn spec_resolve_inputs(
    g: BrainState,
    sense: Sense,
    node: usize,
    flag: Option<bool>,
    j: int,
    cnt: int,
    sum: Option<Rat>,
    history: Seq<usize>,
    fuel: nat,
) -> (int, Option<Rat>, Seq<usize>)
    decreases fuel, 0nat, g.edges.len() - j,
{
    if fuel == 0 {
        (cnt, sum, history)
    } else if j < 0 || j >= g.edges.len() {
        (cnt, sum, history)
    } else if g.edges[j].to == node {
        let stepped = spec_resolve(g, sense, g.edges[j].from, history, (fuel - 1) as nat);
        match stepped.0 {
            None => spec_resolve_inputs(g, sense, node, flag, j + 1, cnt, sum, stepped.1, fuel),
            Some(w) => {
                let w1 = if flag == Some(true) {
                    w.spec_neg()
                } else {
                    w
                };
                let sum1 = match sum {
                    None => None,
                    Some(s) => spec_add(s, w1),
                };
                spec_resolve_inputs(g, sense, node, flag, j + 1, cnt + 1, sum1, stepped.1, fuel)
            },
        }
    } else {
        spec_resolve_inputs(g, sense, node, flag, j + 1, cnt, sum, history, fuel)
    }
}

/// The fuel that out-runs the deepest possible walk of `g`.
pub open spec fn spec_eval_fuel(g: BrainState) -> nat {
    if g.nodes.len() < usize::MAX {
        g.nodes.len() + 1
    } else {
        usize::MAX as nat
    }
}

/// The dominant action from node `i` on, starting from the best candidate
/// seen so far: every live action node with no outgoing edge is resolved
/// on a fresh history, and a strictly greater weight replaces the
/// candidate, so ties keep the earliest node.
pub open spec fn spec_eval_from(
    g: BrainState,
    sense: Sense,
    i: int,
    best: Option<(ActionType, Rat)>,
) -> Option<(ActionType, Rat)>
    decreases g.nodes.len() - i,
{
    if i < 0 || i >= g.nodes.len() {
        best
    } else {
        let best1 = if g.alive[i] && g.nodes[i] is Action && spec_out_degree(g.edges, i) == 0 {
            let res = spec_resolve(g, sense, i as usize, Seq::empty(), spec_eval_fuel(g)).0;
            match res {
                None => best,
                Some(w) => match best {
                    None => Some((g.nodes[i]->Action_0, w)),
                    Some(b) => if b.1.spec_lt(w) {
                        Some((g.nodes[i]->Action_0, w))
                    } else {
                        best
                    },
                },
            }
        } else {
            best
        };
        spec_eval_from(g, sense, i + 1, best1)
    }
}

/// The action a brain picks for a sensory snapshot, if any.
pub open spec fn spec_evaluate(g: BrainState, sense: Sense) -> Option<ActionType> {
    match spec_eval_from(g, sense, 0, None) {
        None => None,
        Some(b) => Some(b.0),
    }
}

/// A visited list is well formed for a graph when it repeats no node and
/// names only nodes of the arena.
pub open spec fn hist_wf(g: BrainState, h: Seq<usize>) -> bool {
    &&& h.no_duplicates()
    &&& forall|i: int| 0 <= i < h.len() ==> ((#[trigger] h[i]) as int) < g.nodes.len()
}

/// `h2` carries `h` as a prefix.
pub open spec fn spec_extends(h2: Seq<usize>, h: Seq<usize>) -> bool {
    &&& h2.len() >= h.len()
    &&& forall|k: int| 0 <= k < h.len() ==> h2[k] == h[k]
}

/// A duplicate-free list of node indices is no longer than the arena.
proof fn lemma_hist_len(g: BrainState, h: Seq<usize>)
    requires
        hist_wf(g, h),
    ensures
        h.len() <= g.nodes.len(),
{
    let n = g.nodes.len() as int;
    let hi = h.map_values(|x: usize| x as int);
    assert forall|i: int, j: int|
        0 <= i < hi.len() && 0 <= j < hi.len() && i != j implies hi[i] != hi[j] by {
        assert(h[i] != h[j]);
    }
    assert(hi.no_duplicates());
    hi.unique_seq_to_set();
    assert forall|x: int| hi.to_set().contains(x) implies vstd::set_lib::set_int_range(
        0,
        n,
    ).contains(x) by {
        assert(hi.contains(x));
        let k = choose|k: int| 0 <= k < hi.len() && hi[k] == x;
        assert(0 <= h[k] && (h[k] as int) < n);
    }
    vstd::set_lib::lemma_int_range(0, n);
    vstd::set_lib::lemma_len_subset(hi.to_set(), vstd::set_lib::set_int_range(0, n));
}

/// Pushing a fresh in-range node keeps a visited list well formed.
proof fn lemma_hist_push(g: BrainState, h: Seq<usize>, node: usize)
    requires
        hist_wf(g, h),
        !h.contains(node),
        (node as int) < g.nodes.len(),
    ensures
        hist_wf(g, h.push(node)),
{
    let h1 = h.push(node);
    assert forall|i: int, j: int|
        0 <= i < h1.len() && 0 <= j < h1.len() && i != j implies h1[i] != h1[j] by {
        if i < h.len() && j < h.len() {
            assert(h[i] != h[j]);
        } else if i == h.len() {
            assert(h1[j] == h[j]);
            if h1[i] == h1[j] {
                assert(h.contains(node));
            }
        } else {
            assert(h1[i] == h[i]);
            if h1[i] == h1[j] {
                assert(h.contains(node));
            }
        }
    }
}

/// A resolution walk only appends to the visited list, and keeps it well
/// formed.
proof fn lemma_resolve_hist(g: BrainState, sense: Sense, node: usize, h: Seq<usize>, fuel: nat)
    requires
        g.wf(),
        (node as int) < g.nodes.len(),
        hist_wf(g, h),
    ensures
        spec_extends(spec_resolve(g, sense, node, h, fuel).1, h),
        hist_wf(g, spec_resolve(g, sense, node, h, fuel).1),
    decreases fuel, 1nat, 0nat,
{
    if fuel != 0 && !(history_guard_bias(g, node, h)) && !(g.nodes[node as int] is Sense)
        && !h.contains(node) {
        let flag = if h.len() == 0 {
            None
        } else {
            spec_find_edge(g.edges, node, h.last())
        };
        let h1 = h.push(node);
        lemma_hist_push(g, h, node);
        lemma_fold_hist(g, sense, node, flag, 0, 0, Some(Rat::spec_zero()), h1, fuel);
    }
}

/// The incoming fold only appends to the visited list, and keeps it well
/// formed.
proof fn lemma_fold_hist(
    g: BrainState,
    sense: Sense,
    node: usize,
    flag: Option<bool>,
    j: int,
    cnt: int,
    sum: Option<Rat>,
    h: Seq<usize>,
    fuel: nat,
)
    requires
        g.wf(),
        hist_wf(g, h),
    ensures
        spec_extends(spec_resolve_inputs(g, sense, node, flag, j, cnt, sum, h, fuel).2, h),
        hist_wf(g, spec_resolve_inputs(g, sense, node, flag, j, cnt, sum, h, fuel).2),
    decreases fuel, 0nat, g.edges.len() - j,
{
    if fuel != 0 && 0 <= j < g.edges.len() {
        if g.edges[j].to == node {
            let from = g.edges[j].from;
            assert(spec_edge_alive(g.alive, g.edges[j]));
            lemma_resolve_hist(g, sense, from, h, (fuel - 1) as nat);
            let stepped = spec_resolve(g, sense, from, h, (fuel - 1) as nat);
            let h2 = stepped.1;
            match stepped.0 {
                None => {
                    lemma_fold_hist(g, sense, node, flag, j + 1, cnt, sum, h2, fuel);
                },
                Some(w) => {
                    let w1 = if flag == Some(true) {
                        w.spec_neg()
                    } else {
                        w
                    };
                    let sum1 = match sum {
                        None => None,
                        Some(s) => spec_add(s, w1),
                    };
                    lemma_fold_hist(g, sense, node, flag, j + 1, cnt + 1, sum1, h2, fuel);
                },
            }
        } else {
            lemma_fold_hist(g, sense, node, flag, j + 1, cnt, sum, h, fuel);
        }
    }
}

/// Resolution does not depend on the fuel once the fuel exceeds what the
/// walk can consume: each nested call pushes one fresh node, so the
/// depth is bounded by the nodes left outside the visited list.
proof fn lemma_resolve_fuel(
    g: BrainState,
    sense: Sense,
    node: usize,
    h: Seq<usize>,
    f1: nat,
    f2: nat,
)
    requires
        g.wf(),
        (node as int) < g.nodes.len(),
        hist_wf(g, h),
        f1 + h.len() >= g.nodes.len() + 1,
        f2 + h.len() >= g.nodes.len() + 1,
    ensures
        spec_resolve(g, sense, node, h, f1) == spec_resolve(g, sense, node, h, f2),
    decreases g.nodes.len() + 1 - h.len(), 1nat, 0nat,
{
    lemma_hist_len(g, h);
    if !(history_guard_bias(g, node, h)) && !(g.nodes[node as int] is Sense) && !h.contains(
        node,
    ) {
        let flag = if h.len() == 0 {
            None
        } else {
            spec_find_edge(g.edges, node, h.last())
        };
        let h1 = h.push(node);
        lemma_hist_push(g, h, node);
        lemma_fold_fuel(g, sense, node, flag, 0, 0, Some(Rat::spec_zero()), h1, f1, f2, h);
    }
}

/// Fuel independence of the incoming fold, with `h0` the visited list of
/// the enclosing resolution, which the fold's own list strictly extends.
proof fn lemma_fold_fuel(
    g: BrainState,
    sense: Sense,
    node: usize,
    flag: Option<bool>,
    j: int,
    cnt: int,
    sum: Option<Rat>,
    h: Seq<usize>,
    f1: nat,
    f2: nat,
    h0: Seq<usize>,
)
    requires
        g.wf(),
        hist_wf(g, h),
        h.len() >= h0.len() + 1,
        f1 + h.len() >= g.nodes.len() + 2,
        f2 + h.len() >= g.nodes.len() + 2,
    ensures
        spec_resolve_inputs(g, sense, node, flag, j, cnt, sum, h, f1) == spec_resolve_inputs(
            g,
            sense,
            node,
            flag,
            j,
            cnt,
            sum,
            h,
            f2,
        ),
    decreases g.nodes.len() + 1 - h0.len(), 0nat, g.edges.len() - j,
{
    lemma_hist_len(g, h);
    if 0 <= j < g.edges.len() {
        if g.edges[j].to == node {
            let from = g.edges[j].from;
            assert(spec_edge_alive(g.alive, g.edges[j]));
            lemma_resolve_fuel(g, sense, from, h, (f1 - 1) as nat, (f2 - 1) as nat);
            lemma_resolve_hist(g, sense, from, h, (f1 - 1) as nat);
            let stepped = spec_resolve(g, sense, from, h, (f1 - 1) as nat);
            let h2 = stepped.1;
            match stepped.0 {
                None => {
                    lemma_fold_fuel(g, sense, node, flag, j + 1, cnt, sum, h2, f1, f2, h0);
                },
                Some(w) => {
                    let w1 = if flag == Some(true) {
                        w.spec_neg()
                    } else {
                        w
                    };
                    let sum1 = match sum {
                        None => None,
                        Some(s) => spec_add(s, w1),
                    };
                    lemma_fold_fuel(g, sense, node, flag, j + 1, cnt + 1, sum1, h2, f1, f2, h0);
                },
            }
        } else {
            lemma_fold_fuel(g, sense, node, flag, j + 1, cnt, sum, h, f1, f2, h0);
        }
    }
}

/// The fuel that evaluation grants is never what decides the outcome:
/// any fuel beyond the node count plus one resolves every node to the
/// same result on a fresh walk, so the bounded recursion computes what
/// the unbounded walk would.
pub proof fn lemma_resolve_fuel_stable(
    g: BrainState,
    sense: Sense,
    node: usize,
    f1: nat,
    f2: nat,
)
    requires
        g.wf(),
        (node as int) < g.nodes.len(),
        f1 >= g.nodes.len() + 1,
        f2 >= g.nodes.len() + 1,
    ensures
        spec_resolve(g, sense, node, Seq::empty(), f1) == spec_resolve(
            g,
            sense,
            node,
            Seq::empty(),
            f2,
        ),
{
    assert(hist_wf(g, Seq::<usize>::empty()));
    lemma_resolve_fuel(g, sense, node, Seq::empty(), f1, f2);
}

/// Evaluation is deterministic: the graph and the sensory snapshot alone
/// fix the outcome, so any two results of `evaluate` on the same agent
/// and snapshot agree.
pub proof fn lemma_evaluate_deterministic(
    g: BrainState,
    sense: Sense,
    r1: Option<ActionType>,
    r2: Option<ActionType>,
)
    requires
        r1 == spec_evaluate(g, sense),
        r2 == spec_evaluate(g, sense),
    ensures
        r1 == r2,
{
}

/// An empty genome builds the empty graph, and evaluating it picks no
/// action for any sensory snapshot.
pub proof fn lemma_empty_genome(sense: Sense)
    ensures
        crate::brain::spec_build(Seq::empty()) is Ok,
        crate::brain::spec_build(Seq::empty())->Ok_0.nodes.len() == 0,
        crate::brain::spec_build(Seq::empty())->Ok_0.edges.len() == 0,
        spec_evaluate(crate::brain::spec_build(Seq::empty())->Ok_0, sense) == None::<ActionType>,
{
    let nodes = crate::brain::spec_nodes_of(Seq::empty());
    let conns = crate::brain::spec_conns_of(Seq::empty());
    assert(nodes.len() == 0 && conns.len() == 0);
    let raw = BrainState {
        nodes,
        alive: Seq::new(nodes.len(), |i: int| true),
        edges: crate::brain::spec_prune_edges(nodes, crate::brain::spec_wire(conns, nodes.len())),
    };
    assert(raw.edges.len() == 0);
    assert(!raw.any_removable()) by {
        assert(forall|i: int| !raw.removable(i));
    }
    assert(raw.prune_fix() == raw);
    assert(spec_eval_from(raw, sense, 0, None) is None);
}

/// Whether `history` holds `x`.
fn history_contains(history: &Vec<usize>, x: usize) -> (r: bool)
    ensures
        r == history@.contains(x),
{
    let mut i: usize = 0;
    while i < history.len()
        invariant
            i <= history@.len(),
            forall|k: int| 0 <= k < i ==> history@[k] != x,
        decreases history@.len() - i,
    {
        if history[i] == x {
            return true;
        }
        i = i + 1;
    }
    false
}

/// The inversion flag of the first edge from `from` to `to`, if any.
fn find_edge_flag(edges: &Vec<Edge>, from: usize, to: usize) -> (r: Option<bool>)
    ensures
        r == spec_find_edge(edges@, from, to),
{
    let mut j: usize = 0;
    proof {
        assert(edges@.skip(0) =~= edges@);
    }
    while j < edges.len()
        invariant
            j <= edges@.len(),
            spec_find_edge(edges@, from, to) == spec_find_edge(edges@.skip(j as int), from, to),
        decreases edges@.len() - j,
    {
        proof {
            assert(edges@.skip(j as int)[0] == edges@[j as int]);
            assert(edges@.skip(j as int).drop_first() =~= edges@.skip(j + 1));
        }
        let e = edges[j];
        if e.from == from && e.to == to {
            return Some(e.inverted);
        }
        j = j + 1;
    }
    proof {
        assert(edges@.skip(edges@.len() as int) =~= Seq::<Edge>::empty());
    }
    None
}

/// Resolves one node's weight, extending `history` as the walk proceeds.
fn resolve_node(
    g: &Brain,
    sense: &Sense,
    index: usize,
    history: &mut Vec<usize>,
    fuel: usize,
) -> (r: Option<Rat>)
    requires
        g@.wf(),
        sense.wf(),
        index < g@.nodes.len(),
    ensures
        (r, final(history)@) == spec_resolve(g@, *sense, index, old(history)@, fuel as nat),
        r is Some ==> r->Some_0.wf(),
    decreases fuel,
{
    if fuel == 0 {
        return None;
    }
    let revisited = history_contains(history, index);
    if revisited {
        match g.nodes[index] {
            Node::Internal(bias) => {
                if g.in_degree(index) == 0 {
                    return Some(bias);
                }
            },
            _ => {},
        }
    }
    match g.nodes[index] {
        Node::Sense(kind) => {
            return Some(sense.get(&kind));
        },
        _ => {},
    }
    if revisited {
        match g.nodes[index] {
            Node::Internal(bias) => {
                return Some(bias);
            },
            _ => {
                return None;
            },
        }
    }
    let bias = match g.nodes[index] {
        Node::Internal(b) => b,
        _ => Rat::one(),
    };
    let flag: Option<bool> = if history.len() == 0 {
        None
    } else {
        find_edge_flag(&g.edges, index, history[history.len() - 1])
    };
    history.push(index);
    let ghost h1 = history@;
    let mut cnt: usize = 0;
    let mut sum: Option<Rat> = Some(Rat::zero());
    let mut j: usize = 0;
    while j < g.edges.len()
        invariant
            j <= g@.edges.len(),
            g@.wf(),
            sense.wf(),
            index < g@.nodes.len(),
            cnt <= j,
            fuel >= 1,
            sum is Some ==> sum->Some_0.wf(),
            spec_resolve_inputs(g@, *sense, index, flag, j as int, cnt as int, sum, history@,
            fuel as nat) == spec_resolve_inputs(g@, *sense, index, flag, 0, 0, Some(
                Rat::spec_zero(),
            ), h1, fuel as nat),
        decreases g@.edges.len() - j,
    {
        let e = g.edges[j];
        if e.to == index {
            let res = resolve_node(g, sense, e.from, history, fuel - 1);
            match res {
                None => {},
                Some(w) => {
                    let w1 = match flag {
                        Some(true) => w.neg(),
                        _ => w,
                    };
                    sum = match sum {
                        None => None,
                        Some(s) => s.checked_add(&w1),
                    };
                    cnt = cnt + 1;
                },
            }
        }
        j = j + 1;
    }
    if cnt == 0 {
        match g.nodes[index] {
            Node::Internal(_) => Some(bias),
            _ => None,
        }
    } else {
        match sum {
            None => None,
            Some(s) => match s.checked_div_int(cnt) {
                None => None,
                Some(q) => q.checked_mul(&bias),
            },
        }
    }
}

impl Brain {
    /// The weight one node resolves to on a fresh walk, if any.
    pub fn node_weight(&self, sense: &Sense, index: usize) -> (r: Option<Rat>)
        requires
            self@.wf(),
            sense.wf(),
            index < self@.nodes.len(),
        ensures
            r == spec_resolve(
                self@,
                *sense,
                index,
                Seq::empty(),
                spec_eval_fuel(self@),
            ).0,
    {
        let mut history: Vec<usize> = Vec::new();
        let fuel = if self.nodes.len() < usize::MAX {
            self.nodes.len() + 1
        } else {
            usize::MAX
        };
        proof {
            assert(history@ =~= Seq::<usize>::empty());
        }
        resolve_node(self, sense, index, &mut history, fuel)
    }

    /// Picks the dominant action for a sensory snapshot: the live action
    /// node with the highest defined weight, earliest node first on ties;
    /// nothing when no action node yields a weight.
    pub fn evaluate(&self, sense: &Sense) -> (r: Option<ActionType>)
        requires
            self@.wf(),
            sense.wf(),
        ensures
            r == spec_evaluate(self@, *sense),
    {
        let n = self.nodes.len();
        let mut best: Option<(ActionType, Rat)> = None;
        let mut i: usize = 0;
        while i < n
            invariant
                i <= n,
                n == self@.nodes.len(),
                self@.wf(),
                sense.wf(),
                best is Some ==> best->Some_0.1.wf(),
                spec_eval_from(self@, *sense, i as int, best) == spec_eval_from(
                    self@,
                    *sense,
                    0,
                    None,
                ),
            decreases n - i,
        {
            if self.alive[i] {
                match self.nodes[i] {
                    Node::Action(act) => {
                        if self.out_degree(i) == 0 {
                            let mut history: Vec<usize> = Vec::new();
                            let fuel = if n < usize::MAX {
                                n + 1
                            } else {
                                usize::MAX
                            };
                            proof {
                                assert(history@ =~= Seq::<usize>::empty());
                            }
                            let res = resolve_node(self, sense, i, &mut history, fuel);
                            match res {
                                None => {},
                                Some(w) => {
                                    best = match best {
                                        None => Some((act, w)),
                                        Some(b) => if b.1.lt(&w) {
                                            Some((act, w))
                                        } else {
                                            Some(b)
                                        },
                                    };
                                },
                            }
                        }
                    },
                    _ => {},
                }
            }
            i = i + 1;
        }
        match best {
            None => None,
            Some(b) => Some(b.0),
        }
    }
}

} // verus!
