pub mod arith;
pub mod backend;
pub mod capacity;
pub mod client;
pub mod normalization;
pub mod random;
pub mod sampler;
pub mod selection_laws;
pub mod weights;
pub mod zone_table;
