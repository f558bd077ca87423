pub mod challenge;
pub mod functions;
pub mod proofs;
pub mod views;
