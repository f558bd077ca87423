pub mod backend;
pub mod boolean_word_ref;
pub mod conversions;
pub mod evolution;
pub mod frontend;
pub mod hook;
pub mod mul_gadgets;
pub mod word_ref;
