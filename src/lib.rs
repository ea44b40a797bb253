//! The MD2 message digest, as a streaming engine whose output is proved
//! equal to a mathematical model of the algorithm.
pub mod table;
pub mod model;
pub mod engine;
pub mod hex;
pub mod laws;

pub use engine::MD2;
