use evobrain::agent::{Agent, AgentError};
use evobrain::eval::Sense;
use evobrain::gene::ActionType;
use evobrain::genome::Genome;
use evobrain::rat::Rat;

fn zero_sense() -> Sense {
    let z = Rat::zero();
    Sense::new(z, z, z, z, z, z)
}

#[test]
fn end_to_end_sense_drives_action() {
    // Sense[1] (Agent channel), Action[0] (Move), one plain edge from the
    // sense to the action. With the Agent channel reading 7/10 the action
    // resolves to exactly 7/10 and wins.
    let agent = Agent::from_text("00000001 00100000 10000000 10000001").expect("buildable");
    let mut sense = zero_sense();
    sense.agent = Rat::new(7, 10);
    assert_eq!(agent.evaluate(&sense), Some(ActionType::Move));
    assert_eq!(agent.brain.node_weight(&sense, 1), Some(Rat::new(7, 10)));
}

#[test]
fn evaluation_is_deterministic() {
    let agent = Agent::from_text("00000001 00100000 10000000 10000001").expect("buildable");
    let mut sense = zero_sense();
    sense.agent = Rat::new(7, 10);
    let first = agent.evaluate(&sense);
    for _ in 0..10 {
        assert_eq!(agent.evaluate(&sense), first);
    }
}

#[test]
fn construction_failure_on_lone_connection_pair() {
    let r = Agent::from_text("10000000 10000001");
    assert_eq!(r.unwrap_err(), AgentError::InvalidGenome);
}

#[test]
fn malformed_text_is_a_format_error() {
    assert_eq!(Agent::from_text("0000001").unwrap_err(), AgentError::Format);
    assert_eq!(Agent::from_text("00000001 0010000x").unwrap_err(), AgentError::Format);
}

#[test]
fn empty_genome_yields_empty_brain_and_no_action() {
    let agent = Agent::from_text("").expect("empty genome builds");
    assert_eq!(agent.brain.node_count(), 0);
    assert_eq!(agent.brain.edge_count(), 0);
    assert_eq!(agent.evaluate(&zero_sense()), None);
    let mut sense = zero_sense();
    sense.food = Rat::new(9, 2);
    assert_eq!(agent.evaluate(&sense), None);
}

#[test]
fn self_loop_terminates_and_contributes_bias() {
    // Two internal nodes in a cycle feeding an action: evaluation must
    // terminate, the revisited internal node answering its bias (1).
    let agent = Agent::from_text(
        "01100000 01100000 00100000 10000000 10000001 10000001 10000000 10000001 10000010",
    )
    .expect("buildable");
    assert_eq!(agent.evaluate(&zero_sense()), Some(ActionType::Move));
    let w = agent.brain.node_weight(&zero_sense(), 2).expect("a defined weight");
    // The walk resolves to 1 throughout: bias 32/32 at each internal hop.
    assert_eq!(w, Rat::new(32768, 32768));
}

#[test]
fn self_loop_only_genome_evaluates_to_nothing() {
    // A single internal node wired to itself is pruned away; evaluation
    // still terminates and picks nothing.
    let agent = Agent::from_text("01000000 10000000 10000000").expect("buildable");
    assert_eq!(agent.brain.node_count(), 0);
    assert_eq!(agent.evaluate(&zero_sense()), None);
}

#[test]
fn inverted_edge_flips_the_carried_signal() {
    // Sense -> Internal (bias 1) with the internal-to-action edge
    // inverted: the internal node's inputs are negated when reached
    // through that edge, so the action sees -3/10 instead of 3/10.
    // Genome: Sense[1], Internal(32/32), Action[0];
    // edges: 0 -> 1 (plain), 1 -> 2 (inverted).
    let plain = Agent::from_text("00000001 01100000 00100000 10000000 10000001 10000001 10000010")
        .expect("buildable");
    let inverted =
        Agent::from_text("00000001 01100000 00100000 10000000 10000001 11000001 10000010")
            .expect("buildable");
    let mut sense = zero_sense();
    sense.agent = Rat::new(3, 10);
    let wp = plain.brain.node_weight(&sense, 2).expect("a defined weight");
    let wi = inverted.brain.node_weight(&sense, 2).expect("a defined weight");
    assert_eq!(wp, Rat::new(96, 320));
    assert_eq!(wi, Rat::new(-96, 320));
}

#[test]
fn dominant_action_wins_and_ties_keep_the_first() {
    // Two actions fed by the same sense through plain edges: equal
    // weights, so the first action node in index order wins.
    let agent = Agent::from_text(
        "00000001 00100000 00100001 10000000 10000001 10000000 10000010",
    )
    .expect("buildable");
    let mut sense = zero_sense();
    sense.agent = Rat::new(1, 2);
    assert_eq!(agent.evaluate(&sense), Some(ActionType::Move));
}

#[test]
fn higher_weight_wins_regardless_of_order() {
    // Action[0] fed by the Agent channel, Action[1] fed by the Food
    // channel; whichever channel reads higher drives the decision.
    let text = "00000001 00000011 00100000 00100001 10000000 10000010 10000001 10000011";
    let agent = Agent::from_text(text).expect("buildable");
    let mut sense = zero_sense();
    sense.agent = Rat::new(1, 4);
    sense.food = Rat::new(3, 4);
    assert_eq!(agent.evaluate(&sense), Some(ActionType::TurnLeft));
    sense.agent = Rat::new(9, 10);
    assert_eq!(agent.evaluate(&sense), Some(ActionType::Move));
}

#[test]
fn from_genome_and_text_agree() {
    let genes = Genome::from_string("00000001 00100000 10000000 10000001").unwrap();
    let a = Agent::from_genome(genes).expect("buildable");
    let b = Agent::from_text("00000001 00100000 10000000 10000001").expect("buildable");
    assert_eq!(a, b);
}

#[test]
fn genome_text_round_trips() {
    let text = "00000001 00100000 10000000 10000001";
    let agent = Agent::from_text(text).expect("buildable");
    assert_eq!(agent.genome_text(), text);
}

#[test]
fn from_random_has_requested_length() {
    for seed in 0..5u64 {
        if let Ok(agent) = Agent::from_random(16, seed) {
            assert_eq!(agent.genome.len(), 16);
            let text = agent.genome_text();
            let back = Genome::from_string(&text).expect("generated genome text parses");
            assert_eq!(back.len(), 16);
        }
    }
}

#[test]
fn reproduce_changes_length_by_at_most_one() {
    let agent = Agent::from_text("00000001 00100000 10000000 10000001").expect("buildable");
    let mut rng: rand::rngs::StdRng = rand::SeedableRng::seed_from_u64(3);
    for _ in 0..40 {
        let child_text = agent.reproduce(&mut rng);
        let child = Genome::from_string(&child_text).expect("offspring text parses");
        assert!(child.len() >= 3 && child.len() <= 5);
    }
}

#[test]
fn debug_dump_lists_nodes_and_edges() {
    let agent = Agent::from_text("00000001 00100000 10000000 10000001").expect("buildable");
    let dump = agent.graph_debug_dump();
    assert!(dump.contains("Sense(Agent)"));
    assert!(dump.contains("Action(Move)"));
    assert!(dump.contains("0 -> 1"));
}
