use evobrain::brain::{Brain, Edge, Node};
use evobrain::gene::{ActionType, Gene, SenseType};
use evobrain::genome::Genome;
use evobrain::rat::Rat;

fn genes(text: &str) -> Vec<Gene> {
    Genome::from_string(text).expect("test genome text parses")
}

#[test]
fn build_simple_sense_to_action() {
    // Sense[1], Action[0], Connection(0, plain), Connection(1, plain):
    // one edge from the sense node to the action node.
    let brain = Brain::build(&genes("00000001 00100000 10000000 10000001")).expect("buildable");
    assert_eq!(brain.node_count(), 2);
    assert_eq!(brain.edge_count(), 1);
    assert_eq!(brain.nodes[0], Node::Sense(SenseType::Agent));
    assert_eq!(brain.nodes[1], Node::Action(ActionType::Move));
    assert_eq!(brain.edges[0], Edge { from: 0, to: 1, inverted: false });
    // Pruning invariant: the sense has no incoming edge, the action no
    // outgoing edge and one incoming.
    assert_eq!(brain.in_degree(0), 0);
    assert_eq!(brain.out_degree(1), 0);
    assert_eq!(brain.in_degree(1), 1);
}

#[test]
fn build_fails_on_connections_without_nodes() {
    let r = Brain::build(&genes("10000000 10000001"));
    assert!(r.is_err());
}

#[test]
fn build_single_connection_without_nodes_is_dropped() {
    // One unpaired connection half has nothing to wire and is discarded,
    // so construction succeeds with an empty graph.
    let brain = Brain::build(&genes("10000000")).expect("no complete pair to wire");
    assert_eq!(brain.node_count(), 0);
    assert_eq!(brain.edge_count(), 0);
}

#[test]
fn build_empty_genome() {
    let brain = Brain::build(&Vec::new()).expect("empty genome builds");
    assert_eq!(brain.node_count(), 0);
    assert_eq!(brain.edge_count(), 0);
}

#[test]
fn unpaired_trailing_connection_is_dropped() {
    // Sense, Action, two pairing halves and one trailing half: one edge.
    let brain =
        Brain::build(&genes("00000001 00100000 10000000 10000001 10000000")).expect("buildable");
    assert_eq!(brain.edge_count(), 1);
}

#[test]
fn endpoints_wrap_modulo_node_count() {
    // Connection indices 62 and 63 wrap modulo the 2-node arena: 62 % 2
    // is node 0, 63 % 2 is node 1.
    let brain = Brain::build(&genes("00000001 00100000 10111110 10111111")).expect("buildable");
    assert_eq!(brain.edge_count(), 1);
    assert_eq!(brain.edges[0], Edge { from: 0, to: 1, inverted: false });
}

#[test]
fn edges_into_senses_and_out_of_actions_are_pruned() {
    // Action wired into a sense: the edge dies in the edge pass, then
    // both ends die in the node pass (sense without outgoing, action
    // without incoming).
    let brain = Brain::build(&genes("00000001 00100000 10000001 10000000")).expect("buildable");
    assert_eq!(brain.node_count(), 0);
    assert_eq!(brain.edge_count(), 0);
}

#[test]
fn disconnected_nodes_are_pruned() {
    // A lone sense and a lone action with no wiring both disappear.
    let brain = Brain::build(&genes("00000001 00100000")).expect("buildable");
    assert_eq!(brain.node_count(), 0);
    assert_eq!(brain.edge_count(), 0);
}

#[test]
fn pruning_cascades_to_a_fixed_point() {
    // Sense -> Internal, Internal unpaired with any action: removing the
    // internal node (no outgoing) must then remove the sense too.
    let brain = Brain::build(&genes("00000001 01000001 10000000 10000001")).expect("buildable");
    assert_eq!(brain.node_count(), 0);
    assert_eq!(brain.edge_count(), 0);
}

#[test]
fn self_loop_only_internal_is_pruned() {
    // An internal node whose single outgoing edge is a self-loop is dead.
    let brain = Brain::build(&genes("01000000 10000000 10000000")).expect("buildable");
    assert_eq!(brain.node_count(), 0);
    assert_eq!(brain.edge_count(), 0);
}

#[test]
fn internal_cycle_feeding_no_action_is_pruned() {
    // Two internal nodes wired in a two-cycle with no action anywhere:
    // neither has a path to an action node, so both are removed.
    let brain =
        Brain::build(&genes("01100000 01100000 10000000 10000001 10000001 10000000"))
            .expect("buildable");
    assert_eq!(brain.node_count(), 0);
    assert_eq!(brain.edge_count(), 0);
}

#[test]
fn internal_cycle_feeding_an_action_survives() {
    // The same two-cycle feeding an action keeps all three nodes: every
    // node reaches the action.
    let brain = Brain::build(&genes(
        "01100000 01100000 00100000 10000000 10000001 10000001 10000000 10000001 10000010",
    ))
    .expect("buildable");
    assert_eq!(brain.node_count(), 3);
    assert_eq!(brain.edge_count(), 3);
}

#[test]
fn prune_again_removes_nothing() {
    let brain = Brain::build(&genes("00000001 00100000 10000000 10000001")).expect("buildable");
    let mut again = brain.clone();
    again.prune_nodes();
    assert_eq!(again, brain);

    let brain2 = Brain::build(&genes(
        "01100000 01100000 00100000 10000000 10000001 10000001 10000000 10000001 10000010",
    ))
    .expect("buildable");
    let mut again2 = brain2.clone();
    again2.prune_nodes();
    assert_eq!(again2, brain2);
}

#[test]
fn internal_bias_is_preserved_in_nodes() {
    let brain =
        Brain::build(&genes("01011111 00100000 10000000 10000001")).expect("buildable");
    assert_eq!(brain.nodes[0], Node::Internal(Rat::new(0b011111, 32)));
}
