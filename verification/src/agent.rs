//! Agents: a genome together with the brain graph it encodes.
//!
//! The brain is a pure function of the genome and is computed once, when
//! the agent is constructed; reproduction never mutates an agent in place
//! but hands back a mutated genome text for a fresh construction.

use vstd::prelude::*;

use crate::brain::{spec_build, Brain, Node};
use crate::eval::{spec_evaluate, Sense};
use crate::gene::{ActionType, Gene, SenseType};
use crate::genome::{spec_genome_of_text, spec_genome_text, spec_mutation_of, Genome};
use crate::rng::{rng_below, rng_from_seed};

verus! {

/// Why an agent could not be constructed: the genome wires connections
/// with no nodes to join, or its text form is malformed.
#[derive(Clone, Copy, PartialEq, Eq, Structural, Debug)]
pub enum AgentError {
    InvalidGenome,
    Format,
}

/// An agent: its genome and the brain graph derived from it.
#[derive(Clone, PartialEq, Eq, Debug)]
pub struct Agent {
    pub genome: Vec<Gene>,
    pub brain: Brain,
}

/// An exact copy of a gene sequence.
fn clone_genes(genes: &Vec<Gene>) -> (r: Vec<Gene>)
    ensures
        r@ == genes@,
{
    let mut r: Vec<Gene> = Vec::new();
    let mut i: usize = 0;
    while i < genes.len()
        invariant
            i <= genes@.len(),
            r@ == genes@.subrange(0, i as int),
        decreases genes@.len() - i,
    {
        r.push(genes[i]);
        proof {
            assert(r@ =~= genes@.subrange(0, i + 1));
        }
        i = i + 1;
    }
    proof {
        assert(genes@.subrange(0, genes@.len() as int) =~= genes@);
    }
    r
}

/// Appends the decimal digits of `n`.
fn append_u64(s: &mut String, n: u64)
    decreases n,
{
    if n >= 10 {
        append_u64(s, n / 10);
    }
    let d = n % 10;
    let piece: &str = if d == 0 {
        "0"
    } else if d == 1 {
        "1"
    } else if d == 2 {
        "2"
    } else if d == 3 {
        "3"
    } else if d == 4 {
        "4"
    } else if d == 5 {
        "5"
    } else if d == 6 {
        "6"
    } else if d == 7 {
        "7"
    } else if d == 8 {
        "8"
    } else {
        "9"
    };
    s.append(piece);
}

/// Appends a signed decimal number.
fn append_i64(s: &mut String, n: i64) {
    if n < 0 {
        s.append("-");
        append_u64(s, (-(n as i128)) as u64);
    } else {
        append_u64(s, n as u64);
    }
}

impl Agent {
    /// The brain is exactly what the genome builds: well formed, pruned,
    /// with no edge into a sense or out of an action, and with every
    /// surviving node backward-reachable from an action node.
    pub open spec fn wf(self) -> bool {
        &&& spec_build(self.genome@) is Ok
        &&& self.brain@ == spec_build(self.genome@)->Ok_0
        &&& self.brain@.wf()
        &&& self.brain@.pruned()
        &&& self.brain@.sense_action_clean()
        &&& forall|i: int|
            0 <= i < self.brain@.nodes.len() && (#[trigger] self.brain@.alive[i])
                ==> self.brain@.reaches_action(i)
    }

    /// An agent from a gene sequence; fails exactly when brain
    /// construction does.
    pub fn from_genome(genome: Vec<Gene>) -> (r: Result<Agent, AgentError>)
        ensures
            r is Ok <==> spec_build(genome@) is Ok,
            r is Err ==> r->Err_0 == AgentError::InvalidGenome,
            r is Ok ==> r->Ok_0.genome@ == genome@ && r->Ok_0.brain@ == spec_build(genome@)->Ok_0
                && r->Ok_0.wf(),
    {
        match Brain::build(&genome) {
            Ok(brain) => Ok(Agent { genome, brain }),
            Err(_) => Err(AgentError::InvalidGenome),
        }
    }

    /// An agent from a genome's textual form: a malformed text fails with
    /// `Format`, a text whose genome cannot be wired fails with
    /// `InvalidGenome`.
    pub fn from_text(data: &str) -> (r: Result<Agent, AgentError>)
        ensures
            spec_genome_of_text(data@) is None ==> r == Err::<Agent, AgentError>(
                AgentError::Format,
            ),
            spec_genome_of_text(data@) is Some ==> {
                let genes = spec_genome_of_text(data@)->Some_0;
                &&& (r is Ok <==> spec_build(genes) is Ok)
                &&& (r is Err ==> r->Err_0 == AgentError::InvalidGenome)
                &&& (r is Ok ==> r->Ok_0.genome@ == genes && r->Ok_0.brain@ == spec_build(
                    genes,
                )->Ok_0 && r->Ok_0.wf())
            },
    {
        match Genome::from_string(data) {
            Err(_) => Err(AgentError::Format),
            Ok(genes) => Agent::from_genome(genes),
        }
    }

    /// An agent from `gene_count` random genes drawn from a generator
    /// seeded with `rng_seed`; fails exactly when the drawn genome cannot
    /// be wired. A genome of at most one gene can never hold a complete
    /// connection pair, so construction then succeeds whatever is drawn.
    pub fn from_random(gene_count: usize, rng_seed: u64) -> (r: Result<Agent, AgentError>)
        ensures
            r is Ok ==> r->Ok_0.wf() && r->Ok_0.genome@.len() == gene_count,
            r is Err ==> r->Err_0 == AgentError::InvalidGenome,
            gene_count <= 1 ==> r is Ok,
    {
        let mut rng = rng_from_seed(rng_seed);
        let mut genome: Vec<Gene> = Vec::new();
        let mut i: usize = 0;
        while i < gene_count
            invariant
                i <= gene_count,
                genome@.len() == i,
            decreases gene_count - i,
        {
            genome.push(Gene::new(rng_below(&mut rng, 256) as u8));
            i = i + 1;
        }
        proof {
            if gene_count <= 1 {
                crate::brain::lemma_decode_counts(genome@);
            }
        }
        Agent::from_genome(genome)
    }

    /// The dominant action for a sensory snapshot, if any.
    pub fn evaluate(&self, sense: &Sense) -> (r: Option<ActionType>)
        requires
            self.wf(),
            sense.wf(),
        ensures
            r == spec_evaluate(self.brain@, *sense),
    {
        self.brain.evaluate(sense)
    }

    /// The genome's textual form.
    pub fn genome_text(&self) -> (r: String)
        ensures
            r@ == spec_genome_text(self.genome@, seq![' ']),
    {
        Genome::get(clone_genes(&self.genome))
    }

    /// A mutated copy of the genome, in textual form, to be fed back
    /// through `from_text`: one gene appended, one gene removed, or the
    /// same genes with at most the rounded mutation share of single-bit
    /// flips, as `spec_mutation_of` states.
    pub fn reproduce(&self, rng: &mut rand::rngs::StdRng) -> (r: String)
        ensures
            exists|g2: Seq<Gene>|
                r@ == spec_genome_text(g2, seq![' ']) && spec_mutation_of(self.genome@, g2),
    {
        Genome::mutate(clone_genes(&self.genome), rng)
    }

    /// A human-readable listing of the live nodes and edges, one per
    /// line. The exact format is for inspection only and is not part of
    /// any contract.
    pub fn graph_debug_dump(&self) -> String
        requires
            self.wf(),
    {
        let mut s = String::new();
        let mut i: usize = 0;
        while i < self.brain.nodes.len()
            invariant
                self.brain@.alive.len() == self.brain@.nodes.len(),
            decreases self.brain@.nodes.len() - i,
        {
            if self.brain.alive[i] {
                append_u64(&mut s, i as u64);
                s.append(": ");
                match self.brain.nodes[i] {
                    Node::Sense(kind) => {
                        s.append("Sense(");
                        s.append(
                            match kind {
                                SenseType::Blocked => "Blocked",
                                SenseType::Agent => "Agent",
                                SenseType::AgentDensity => "AgentDensity",
                                SenseType::Food => "Food",
                                SenseType::FoodDensity => "FoodDensity",
                                SenseType::Direction => "Direction",
                            },
                        );
                        s.append(")");
                    },
                    Node::Action(kind) => {
                        s.append("Action(");
                        s.append(
                            match kind {
                                ActionType::Move => "Move",
                                ActionType::TurnLeft => "TurnLeft",
                                ActionType::TurnRight => "TurnRight",
                                ActionType::Kill => "Kill",
                                ActionType::ProduceFood => "ProduceFood",
                            },
                        );
                        s.append(")");
                    },
                    Node::Internal(bias) => {
                        s.append("Internal(");
                        append_i64(&mut s, bias.num);
                        s.append("/");
                        append_i64(&mut s, bias.den);
                        s.append(")");
                    },
                }
                s.append("\n");
            }
            i = i + 1;
        }
        let mut j: usize = 0;
        while j < self.brain.edges.len()
            decreases self.brain@.edges.len() - j,
        {
            let e = self.brain.edges[j];
            append_u64(&mut s, e.from as u64);
            s.append(" -> ");
            append_u64(&mut s, e.to as u64);
            if e.inverted {
                s.append(" inverted");
            }
            s.append("\n");
            j = j + 1;
        }
        s
    }
}

} // verus!
