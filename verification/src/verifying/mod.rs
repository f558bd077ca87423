pub mod functions;
pub mod options;
pub mod replay;
pub mod incremental;
