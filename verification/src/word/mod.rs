pub mod bitseq;
pub mod by_word_type;
pub mod composite;
pub mod prim;
pub mod word;
pub mod word_idx;
pub mod words;
pub mod slots;
pub mod collectors;
