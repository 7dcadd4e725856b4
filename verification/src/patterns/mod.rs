pub mod binding_emit;
pub mod decision_tree;
pub mod emit_plan;
pub mod matching;
pub mod semantics;
pub mod sites;
pub mod tree_emitter;
