pub mod backend;
pub mod word_pool;
