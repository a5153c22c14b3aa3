//! Minimal axiomatic substrate for distinction theory: one operator
//! (`synthesize`), two primordials, four axioms enforced inline, and the
//! projection API that reads the resulting graph.

pub mod agent;
pub mod bindings;
pub mod cone;
pub mod distinction;
pub mod distinction_hex;
pub mod engine;
pub mod primitives;
pub mod projection;
pub mod recorder;
pub mod replay;
pub mod subsystems;
pub mod text;

pub use agent::{synthesize_causal_action, LocalCausalAgent};
pub use distinction::{Distinction, ParentPair, RawDistinctionId};
pub use distinction_hex::ParseError;
pub use engine::{DistinctionEngine, IdentityHasher, InvariantError, SynthesisOutcome, VerifyError};
pub use primitives::{ByteMapping, Canonicalizable};
pub use projection::{
    Adjacency, CoreSignal, Degree, HopDistance, Projection, ProjectionId, ProjectionSpec, Signal,
};
pub use recorder::SynthesisRecorder;
pub use replay::{build_children_index, replay_topological, ReplayError};
