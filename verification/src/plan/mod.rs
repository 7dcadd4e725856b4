pub mod bodies;
pub mod invariants;
pub mod placement;
pub mod values;
