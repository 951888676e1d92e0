//! A small neuro-evolution core: genomes of single-byte genes are decoded
//! into directed "brain" graphs of sense, internal and action nodes, the
//! graphs are pruned to a minimal form, and each simulation tick the graph
//! is evaluated against a sensory snapshot to pick a dominant action.

pub mod agent;
pub mod brain;
pub mod eval;
pub mod gene;
pub mod genome;
pub mod rat;
pub mod rng;
pub mod world;

pub use agent::{Agent, AgentError};
pub use brain::Brain;
pub use eval::Sense;
pub use gene::{ActionType, Gene, SenseType};
pub use rat::Rat;
