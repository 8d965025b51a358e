//! The compiler's analyses over the statement tree.
pub mod cost_model;
pub mod ir;
pub mod table_shape;
pub mod builtins_folding;
pub mod constant_fold;
