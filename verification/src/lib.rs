//! Petri-dish life: genomes of packed connection genes, the wiring that a
//! genome grows into, food and edge rules, and the named-save book.

pub mod audio;
pub mod brain;
pub mod chance;
pub mod controls;
pub mod field;
pub mod genome;
pub mod stamp;
pub mod spatial;
pub mod store;
pub mod text;
pub mod world;
pub mod wrap;
