//! Reconstruction of one corrupt block from the parity of its stripe.

pub mod engine;
pub mod gf;
pub mod laws;
pub mod model;

pub use engine::{recover_block, recover_via_p, recover_via_q, solve_two_disk};
pub use model::{FailureReason, ParityPath, RecoveryInput, RecoveryResult};
