pub mod assertions;
pub mod circuit;
