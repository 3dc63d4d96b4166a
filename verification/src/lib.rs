//! Verified core of an Intel MPK (memory protection keys) based runtime for
//! running foreign (C) libraries in an isolated protection domain.

pub mod pkru;
pub mod text;
pub mod maps;
pub mod sort;
pub mod linkmap;
pub mod tracker;
pub mod runtime;
pub mod invoke;
pub mod plan;
