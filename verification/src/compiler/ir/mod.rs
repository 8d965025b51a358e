//! The three-address intermediate representation and its analyses.
pub mod block;
pub mod builder;
pub mod cfg_builder;
pub mod codegen;

pub mod dom;
pub mod inst;
pub mod liveness;
pub mod opt;
pub mod regalloc;
pub mod ssa;
pub mod ssa_construct;
pub mod tree_order;
pub mod types;
pub mod verify;

pub use block::UpvalSource;
pub use dom::DominatorTree;
pub use inst::{SpreadSink, SpreadSource};
pub use liveness::{BlockLiveness, LiveInterval, LivenessInfo};
pub use regalloc::RegisterAllocation;
pub use types::{IrBinaryOp, IrLabel, IrUnaryOp, IrVar};
pub use verify::VerifyError;
