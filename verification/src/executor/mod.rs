pub mod backend;
pub mod functions;
pub mod options;
pub mod word_pool;
