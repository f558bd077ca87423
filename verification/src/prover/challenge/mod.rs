pub mod builder;
pub mod challenge;
pub mod functions;
pub mod options;
