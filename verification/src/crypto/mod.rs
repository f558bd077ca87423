pub mod domain;
pub mod hasher;
pub mod keccak;
pub mod prg;
