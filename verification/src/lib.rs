pub mod backend;
pub mod circuit;
pub mod crypto;
pub mod executor;
pub mod memory;
pub mod prover;
pub mod repetitions;
pub mod verifying;
pub mod word;
