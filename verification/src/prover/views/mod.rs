pub mod backend;
pub mod collectors;
pub mod functions;
pub mod gates;
pub mod view;
pub mod word_pool;
