//! Reference subsystems: consumer patterns built atop the substrate.

pub mod commitment;
pub mod compactor;
pub mod network;
pub mod parallel;
pub mod runtime;
pub mod validator;

pub use commitment::{BatchCommitment, BatchDataRequest, BatchDataResponse, CommitmentAgent, CommitmentError};
pub use compactor::{CompactionAction, CompactionStats, StructuralCompactor, ThermalState};
pub use network::{NetworkAction, NetworkStats, PeerIdentity};
pub use parallel::BatchSynthesizer;
pub use runtime::{NetworkMessage, RuntimeAction};
pub use validator::{ConsensusValidator, TransactionAction, TransactionBatch, ValidatorError};
