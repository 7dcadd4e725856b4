pub mod effects;
pub mod expressions;
pub mod module_state;
pub mod names;
pub mod options;
pub mod patterns;
pub mod plan;
pub mod text;

pub use options::{EmitOptions, sentinel_hint};
