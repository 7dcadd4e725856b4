pub mod constraints;
