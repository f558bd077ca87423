pub mod builder;
pub mod collectors;
pub mod functions;
pub mod options;
pub mod response;
